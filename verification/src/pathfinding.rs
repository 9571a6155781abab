//! Shortest-path route planning over the city graph.
//!
//! `compute_path` snaps the start and destination points to their nearest
//! graph nodes, runs Dijkstra's shortest-path search over the adjacency
//! index, and converts the resulting node path into an ordered waypoint
//! sequence: each waypoint carries its node's coordinates, the displacement
//! toward the next waypoint (the direction vector, unnormalised), and the
//! Euclidean distance to it; a terminal sentinel waypoint with zero
//! displacement and zero distance marks completion.

use vstd::prelude::*;
use vstd::set::axiom_set_insert_len;
use vstd::set_lib::{lemma_int_range, lemma_len_subset, set_int_range};

use crate::geometry::{dist_sq, is_sqrt_floor, point_in_bounds, Point, MAX_SEPARATION};
use crate::map::{
    edge_listed, edge_ok, graph_wf, is_nearest, lemma_is_nearest_unique, node_point,
    nodes_separated, CityGraph, ENDPOINT_EPSILON_SQ,
};
use crate::geometry::{
    euclid_distance, lemma_dist_sq_bounds, lemma_dist_sq_nonneg, lemma_mul_mono,
    lemma_sqrt_floor_below, lemma_sqrt_floor_exists, lemma_sqrt_floor_unique, sqrt_floor_of,
};

verus! {

/// Largest node count the search accepts: any accumulated path cost then
/// fits in `u64`, since each edge is shorter than `MAX_SEPARATION`.
pub const NODE_LIMIT: usize = 1_000_000_000;

/// One step of a route: a position, the displacement toward the next
/// waypoint (zero on the final waypoint), and the Euclidean distance to the
/// next waypoint (zero on the final waypoint). The direction of travel is
/// the unit vector of the displacement.
#[derive(Debug, Clone, Copy, PartialEq, Eq, Structural)]
pub struct Waypoint {
    pub x: i64,
    pub y: i64,
    pub dir_x: i64,
    pub dir_y: i64,
    pub dist_to_next: u64,
}

/// Some directed edge leads from node `u` to node `v`.
pub open spec fn edge_exists(g: CityGraph, u: usize, v: usize) -> bool {
    exists|k: int|
        0 <= k < g.edges@.len() && (#[trigger] g.edges@[k]).from == u && g.edges@[k].to == v
}

/// `p` is a walk through the graph from node `a` to node `b`.
pub open spec fn is_path(g: CityGraph, p: Seq<usize>, a: usize, b: usize) -> bool {
    &&& p.len() >= 1
    &&& p[0] == a
    &&& p[p.len() - 1] == b
    &&& forall|i: int| 0 <= i < p.len() ==> (#[trigger] p[i]) < g.nodes@.len()
    &&& forall|i: int| 0 <= i < p.len() - 1 ==> edge_exists(g, #[trigger] p[i], p[i + 1])
}

/// Node `b` can be reached from node `a` along directed edges.
pub open spec fn reachable(g: CityGraph, a: usize, b: usize) -> bool {
    exists|p: Seq<usize>| is_path(g, p, a, b)
}

/// The cost of one leg of a walk: the Euclidean distance between the two
/// nodes, rounded down.
pub open spec fn leg_cost(g: CityGraph, u: usize, v: usize) -> int {
    sqrt_floor_of(dist_sq(node_point(g.nodes@[u as int]), node_point(g.nodes@[v as int])))
}

/// The total length of a walk: the sum of its leg costs.
pub open spec fn path_cost(g: CityGraph, p: Seq<usize>) -> int
    decreases p.len(),
{
    if p.len() <= 1 {
        0
    } else {
        leg_cost(g, p[0], p[1]) + path_cost(g, p.drop_first())
    }
}

proof fn lemma_leg_cost_nonneg(g: CityGraph, u: usize, v: usize)
    ensures
        leg_cost(g, u, v) >= 0,
{
    let n = dist_sq(node_point(g.nodes@[u as int]), node_point(g.nodes@[v as int]));
    lemma_dist_sq_nonneg(node_point(g.nodes@[u as int]), node_point(g.nodes@[v as int]));
    lemma_sqrt_floor_exists(n);
}

proof fn lemma_path_cost_nonneg(g: CityGraph, p: Seq<usize>)
    ensures
        path_cost(g, p) >= 0,
    decreases p.len(),
{
    if p.len() > 1 {
        lemma_leg_cost_nonneg(g, p[0], p[1]);
        lemma_path_cost_nonneg(g, p.drop_first());
    }
}

/// A walk costs its first part plus its last leg.
proof fn lemma_path_cost_drop_last(g: CityGraph, p: Seq<usize>)
    requires
        p.len() >= 2,
    ensures
        path_cost(g, p) == path_cost(g, p.drop_last()) + leg_cost(
            g,
            p[p.len() - 2],
            p[p.len() - 1],
        ),
    decreases p.len(),
{
    if p.len() == 2 {
        assert(p.drop_first().len() == 1);
        assert(p.drop_last().len() == 1);
        assert(path_cost(g, p) == leg_cost(g, p[0], p[1]) + path_cost(g, p.drop_first()));
        assert(path_cost(g, p.drop_first()) == 0);
        assert(path_cost(g, p.drop_last()) == 0);
    } else {
        lemma_path_cost_drop_last(g, p.drop_first());
        assert(p.drop_first().drop_last() =~= p.drop_last().drop_first());
        assert(p.drop_first()[p.drop_first().len() - 2] == p[p.len() - 2]);
        assert(p.drop_first()[p.drop_first().len() - 1] == p[p.len() - 1]);
        assert(p.drop_last()[0] == p[0] && p.drop_last()[1] == p[1]);
        assert(path_cost(g, p) == leg_cost(g, p[0], p[1]) + path_cost(g, p.drop_first()));
        assert(p.drop_last().len() >= 2);
        assert(path_cost(g, p.drop_last()) == leg_cost(g, p.drop_last()[0], p.drop_last()[1])
            + path_cost(g, p.drop_last().drop_first()));
    }
}

/// A prefix of a walk costs no more than the whole walk.
proof fn lemma_path_cost_prefix(g: CityGraph, p: Seq<usize>, j: int)
    requires
        0 <= j < p.len(),
    ensures
        path_cost(g, p.take(j + 1)) <= path_cost(g, p),
    decreases p.len(),
{
    if j == 0 {
        assert(p.take(1).len() == 1);
        lemma_path_cost_nonneg(g, p);
    } else {
        lemma_path_cost_prefix(g, p.drop_first(), j - 1);
        assert(p.take(j + 1).drop_first() =~= p.drop_first().take(j));
        assert(p.take(j + 1)[0] == p[0] && p.take(j + 1)[1] == p[1]);
    }
}

/// In a well-formed graph an edge's length is the leg cost of its endpoints.
proof fn lemma_edge_cost(g: CityGraph, k: int)
    requires
        graph_wf(g),
        0 <= k < g.edges@.len(),
    ensures
        g.edges@[k].length as int == leg_cost(g, g.edges@[k].from, g.edges@[k].to),
{
    assert(edge_ok(g.nodes@, g.edges@[k]));
    let a = node_point(g.nodes@[g.edges@[k].from as int]);
    let b = node_point(g.nodes@[g.edges@[k].to as int]);
    lemma_dist_sq_nonneg(a, b);
    lemma_sqrt_floor_exists(dist_sq(a, b));
    lemma_sqrt_floor_unique(dist_sq(a, b), g.edges@[k].length as int, sqrt_floor_of(dist_sq(a, b)));
}

/// In a well-formed graph every edge is shorter than `MAX_SEPARATION`.
proof fn lemma_edge_length_bound(g: CityGraph, k: int)
    requires
        graph_wf(g),
        0 <= k < g.edges@.len(),
    ensures
        g.edges@[k].length < MAX_SEPARATION,
{
    assert(edge_ok(g.nodes@, g.edges@[k]));
    let a = node_point(g.nodes@[g.edges@[k].from as int]);
    let b = node_point(g.nodes@[g.edges@[k].to as int]);
    lemma_dist_sq_bounds(a, b);
    assert((MAX_SEPARATION as int) * (MAX_SEPARATION as int) == 9_000_000_000_000_000_000);
    lemma_sqrt_floor_below(dist_sq(a, b), g.edges@[k].length as int, MAX_SEPARATION as int);
}

/// Along a path, once every node with a finite tentative distance is settled
/// and every settled node has relaxed all its edges, every node of the path
/// has a finite distance.
proof fn lemma_path_prefix_finite(
    g: CityGraph,
    p: Seq<usize>,
    dist: Seq<u64>,
    visited: Seq<bool>,
    a: usize,
    b: usize,
    i: int,
)
    requires
        graph_wf(g),
        dist.len() == g.nodes@.len(),
        visited.len() == g.nodes@.len(),
        is_path(g, p, a, b),
        0 <= i < p.len(),
        dist[a as int] < u64::MAX,
        forall|u: int| 0 <= u < dist.len() && #[trigger] dist[u] < u64::MAX ==> visited[u],
        forall|k: int|
            0 <= k < g.edges@.len() && visited[(#[trigger] g.edges@[k]).from as int] ==> dist[
                g.edges@[k].to as int
            ] < u64::MAX,
    ensures
        dist[p[i] as int] < u64::MAX,
    decreases i,
{
    if i > 0 {
        lemma_path_prefix_finite(g, p, dist, visited, a, b, i - 1);
        assert(edge_exists(g, p[i - 1], p[i]));
        let k = choose|k: int|
            0 <= k < g.edges@.len() && (#[trigger] g.edges@[k]).from == p[i - 1] && g.edges@[k].to
                == p[i];
        assert(visited[p[i - 1] as int]);
        assert(dist[g.edges@[k].to as int] < u64::MAX);
    }
}

/// Every settled node has relaxed all its outgoing edges: no edge out of a
/// settled node can improve its target's tentative distance.
spec fn settled_relaxed(g: CityGraph, dist: Seq<u64>, visited: Seq<bool>) -> bool {
    forall|k: int|
        0 <= k < g.edges@.len() && visited[(#[trigger] g.edges@[k]).from as int] ==> dist[
            g.edges@[k].to as int
        ] as int <= dist[g.edges@[k].from as int] as int + g.edges@[k].length as int
}

/// As `settled_relaxed`, except that node `x` may not have relaxed its edges
/// yet.
spec fn settled_relaxed_except(
    g: CityGraph,
    dist: Seq<u64>,
    visited: Seq<bool>,
    x: usize,
) -> bool {
    forall|k: int|
        0 <= k < g.edges@.len() && visited[(#[trigger] g.edges@[k]).from as int] && g.edges@[k].from
            != x ==> dist[g.edges@[k].to as int] as int <= dist[g.edges@[k].from as int] as int
            + g.edges@[k].length as int
}

/// Settled tentative distances never exceed unsettled finite ones.
spec fn settled_min(dist: Seq<u64>, visited: Seq<bool>) -> bool {
    forall|w: int, u: int|
        0 <= w < dist.len() && 0 <= u < dist.len() && #[trigger] visited[w] && !visited[u]
            && #[trigger] dist[u] < u64::MAX ==> dist[w] <= dist[u]
}

/// Every settled node's tentative distance is a lower bound on the cost of
/// every walk that reaches it from the start.
spec fn settled_opt(g: CityGraph, dist: Seq<u64>, visited: Seq<bool>, start: usize) -> bool {
    forall|w: usize, q: Seq<usize>|
        w < dist.len() && visited[w as int] && #[trigger] is_path(g, q, start, w) ==> path_cost(
            g,
            q,
        ) >= dist[w as int] as int
}

/// A walk whose nodes before the last are all settled costs at least the
/// tentative distance of its last node.
proof fn lemma_settled_prefix_bound(
    g: CityGraph,
    dist: Seq<u64>,
    visited: Seq<bool>,
    start: usize,
    q: Seq<usize>,
)
    requires
        graph_wf(g),
        dist.len() == g.nodes@.len(),
        visited.len() == g.nodes@.len(),
        dist[start as int] == 0,
        settled_relaxed(g, dist, visited),
        q.len() >= 1,
        q[0] == start,
        forall|i: int| 0 <= i < q.len() ==> (#[trigger] q[i]) < g.nodes@.len(),
        forall|i: int| 0 <= i < q.len() - 1 ==> edge_exists(g, #[trigger] q[i], q[i + 1]),
        forall|i: int| 0 <= i < q.len() - 1 ==> visited[(#[trigger] q[i]) as int],
    ensures
        dist[q[q.len() - 1] as int] as int <= path_cost(g, q),
    decreases q.len(),
{
    if q.len() == 1 {
        lemma_path_cost_nonneg(g, q);
    } else {
        let q2 = q.drop_last();
        assert(q2[0] == q[0]);
        assert forall|i: int| 0 <= i < q2.len() implies (#[trigger] q2[i]) < g.nodes@.len() by {
            assert(q2[i] == q[i]);
        }
        assert forall|i: int|
            0 <= i < q2.len() - 1 implies edge_exists(g, #[trigger] q2[i], q2[i + 1]) by {
            assert(q2[i] == q[i] && q2[i + 1] == q[i + 1]);
            assert(edge_exists(g, q[i], q[i + 1]));
        }
        assert forall|i: int| 0 <= i < q2.len() - 1 implies visited[(#[trigger] q2[i]) as int] by {
            assert(q2[i] == q[i]);
        }
        lemma_settled_prefix_bound(g, dist, visited, start, q2);
        lemma_path_cost_drop_last(g, q);
        let u = q[q.len() - 2];
        let v = q[q.len() - 1];
        assert(visited[u as int]);
        assert(edge_exists(g, u, v));
        let k = choose|k: int|
            0 <= k < g.edges@.len() && (#[trigger] g.edges@[k]).from == u && g.edges@[k].to == v;
        lemma_edge_cost(g, k);
        assert(dist[v as int] as int <= dist[u as int] as int + g.edges@[k].length as int);
        assert(q2[q2.len() - 1] == u);
    }
}

/// The index of the first unsettled node of a walk that ends unsettled.
proof fn first_unvisited(q: Seq<usize>, visited: Seq<bool>) -> (j: int)
    requires
        q.len() >= 1,
        forall|i: int| 0 <= i < q.len() ==> (#[trigger] q[i]) < visited.len(),
        !visited[q[q.len() - 1] as int],
    ensures
        0 <= j < q.len(),
        !visited[q[j] as int],
        forall|i: int| 0 <= i < j ==> visited[(#[trigger] q[i]) as int],
    decreases q.len(),
{
    if !visited[q[0] as int] {
        0
    } else {
        let qr = q.drop_first();
        assert(qr[qr.len() - 1] == q[q.len() - 1]);
        assert forall|i: int| 0 <= i < qr.len() implies (#[trigger] qr[i]) < visited.len() by {
            assert(qr[i] == q[i + 1]);
        }
        let j2 = first_unvisited(qr, visited);
        assert(qr[j2] == q[j2 + 1]);
        assert forall|i: int| 0 <= i < j2 + 1 implies visited[(#[trigger] q[i]) as int] by {
            if i > 0 {
                assert(qr[i - 1] == q[i]);
                assert(visited[qr[i - 1] as int]);
            }
        }
        j2 + 1
    }
}

/// When the unsettled node with the least finite tentative distance is
/// selected, that distance is a lower bound on the cost of every walk from
/// the start to it.
proof fn lemma_selected_bound(
    g: CityGraph,
    dist: Seq<u64>,
    visited: Seq<bool>,
    start: usize,
    best: usize,
    q: Seq<usize>,
)
    requires
        graph_wf(g),
        dist.len() == g.nodes@.len(),
        visited.len() == g.nodes@.len(),
        dist[start as int] == 0,
        settled_relaxed(g, dist, visited),
        best < g.nodes@.len(),
        !visited[best as int],
        dist[best as int] < u64::MAX,
        forall|u: int|
            0 <= u < dist.len() && !visited[u] && #[trigger] dist[u] < u64::MAX ==> dist[
                best as int
            ] <= dist[u],
        is_path(g, q, start, best),
    ensures
        path_cost(g, q) >= dist[best as int] as int,
{
    let j = first_unvisited(q, visited);
    let pre = q.take(j + 1);
    assert(pre[0] == q[0]);
    assert forall|i: int| 0 <= i < pre.len() implies (#[trigger] pre[i]) < g.nodes@.len() by {
        assert(pre[i] == q[i]);
    }
    assert forall|i: int|
        0 <= i < pre.len() - 1 implies edge_exists(g, #[trigger] pre[i], pre[i + 1]) by {
        assert(pre[i] == q[i] && pre[i + 1] == q[i + 1]);
        assert(edge_exists(g, q[i], q[i + 1]));
    }
    assert forall|i: int| 0 <= i < pre.len() - 1 implies visited[(#[trigger] pre[i]) as int] by {
        assert(pre[i] == q[i]);
    }
    lemma_settled_prefix_bound(g, dist, visited, start, pre);
    lemma_path_cost_prefix(g, q, j);
    assert(pre[pre.len() - 1] == q[j]);
    if dist[q[j] as int] < u64::MAX {
        assert(dist[best as int] <= dist[q[j] as int]);
    }
}

/// The bookkeeping of the search: tentative distances, predecessor chain and
/// hop counts are consistent, settled nodes are finite and not the goal, and
/// every finite cost is bounded by its hop count times the longest edge.
spec fn tentative_ok(
    g: CityGraph,
    dist: Seq<u64>,
    prev: Seq<usize>,
    hops: Seq<usize>,
    visited: Seq<bool>,
    vcount: int,
    start: usize,
    goal: usize,
) -> bool {
    let n = g.nodes@.len();
    &&& dist.len() == n
    &&& prev.len() == n
    &&& hops.len() == n
    &&& visited.len() == n
    &&& start < n
    &&& goal < n
    &&& dist[start as int] == 0
    &&& forall|u: int| 0 <= u < n && #[trigger] visited[u] ==> dist[u] < u64::MAX && u != goal
    &&& forall|u: int|
        0 <= u < n && #[trigger] dist[u] < u64::MAX ==> hops[u] <= vcount && dist[u] as int <= hops[
            u
        ] as int * (MAX_SEPARATION as int)
    &&& forall|u: int|
        0 <= u < n && #[trigger] dist[u] < u64::MAX && u != start ==> prev[u] < n && visited[prev[u]
            as int] && dist[prev[u] as int] < u64::MAX && edge_exists(g, prev[u], u as usize)
            && hops[u] == hops[prev[u] as int] + 1 && prev[u] != u && dist[u] as int == dist[prev[u]
            as int] as int + leg_cost(g, prev[u], u as usize)
}

/// Every settled node has relaxed all its outgoing edges: their targets all
/// have finite tentative distances.
spec fn settled_closed(g: CityGraph, dist: Seq<u64>, visited: Seq<bool>) -> bool {
    forall|k: int|
        0 <= k < g.edges@.len() && visited[(#[trigger] g.edges@[k]).from as int] ==> dist[
            g.edges@[k].to as int
        ] < u64::MAX
}

/// As `settled_closed`, except that node `x` may not have relaxed its edges
/// yet.
spec fn settled_closed_except(g: CityGraph, dist: Seq<u64>, visited: Seq<bool>, x: usize) -> bool {
    forall|k: int|
        0 <= k < g.edges@.len() && visited[(#[trigger] g.edges@[k]).from as int] && g.edges@[k].from
            != x ==> dist[g.edges@[k].to as int] < u64::MAX
}

/// The unvisited node with the least finite tentative distance, or the
/// length of `dist` when every unvisited node still has an infinite one.
#[verifier::loop_isolation(false)]
fn select_min(dist: &Vec<u64>, visited: &Vec<bool>) -> (best: usize)
    requires
        dist@.len() == visited@.len(),
    ensures
        best <= dist@.len(),
        best < dist@.len() ==> !visited@[best as int] && dist@[best as int] < u64::MAX,
        best < dist@.len() ==> forall|u: int|
            0 <= u < dist@.len() && !(#[trigger] visited@[u]) && dist@[u] < u64::MAX ==> dist@[
                best as int
            ] <= dist@[u],
        best == dist@.len() ==> forall|u: int|
            0 <= u < dist@.len() ==> (#[trigger] visited@[u] || dist@[u] == u64::MAX),
{
    let n: usize = dist.len();
    let mut best: usize = n;
    let mut best_d: u64 = u64::MAX;
    let mut v: usize = 0;
    while v < n
        invariant
            v <= n,
            best <= n,
            best == n ==> forall|u: int|
                0 <= u < v ==> (#[trigger] visited@[u] || dist@[u] == u64::MAX),
            best < n ==> !visited@[best as int] && dist@[best as int] < u64::MAX && best_d
                == dist@[best as int],
            best < n ==> forall|u: int|
                0 <= u < v && !(#[trigger] visited@[u]) && dist@[u] < u64::MAX ==> best_d <= dist@[
                    u
                ],
        decreases n - v,
    {
        if !visited[v] && dist[v] < u64::MAX && (best == n || dist[v] < best_d) {
            best = v;
            best_d = dist[v];
        }
        v += 1;
    }
    best
}

/// Relax every outgoing edge of the just-settled node `best`: any strictly
/// cheaper route through `best` to an unsettled node replaces that node's
/// tentative distance and predecessor.
#[verifier::loop_isolation(false)]
#[verifier::rlimit(100)]
fn relax_node(
    graph: &CityGraph,
    dist: &mut Vec<u64>,
    prev: &mut Vec<usize>,
    hops: &mut Vec<usize>,
    visited: &Vec<bool>,
    best: usize,
    vcount: usize,
    start: usize,
    goal: usize,
)
    requires
        graph_wf(*graph),
        graph.nodes@.len() <= NODE_LIMIT,
        best < graph.nodes@.len(),
        vcount <= graph.nodes@.len(),
        visited@[best as int],
        old(dist)@[best as int] < u64::MAX,
        old(hops)@[best as int] + 1 <= vcount,
        tentative_ok(*graph, old(dist)@, old(prev)@, old(hops)@, visited@, vcount as int, start, goal),
        settled_closed_except(*graph, old(dist)@, visited@, best),
        settled_relaxed_except(*graph, old(dist)@, visited@, best),
        forall|w: int|
            0 <= w < visited@.len() && #[trigger] visited@[w] ==> old(dist)@[w] <= old(dist)@[
                best as int
            ],
        forall|u: int|
            0 <= u < visited@.len() && !visited@[u] && #[trigger] old(dist)@[u] < u64::MAX ==> old(
                dist,
            )@[best as int] <= old(dist)@[u],
    ensures
        tentative_ok(*graph, final(dist)@, final(prev)@, final(hops)@, visited@, vcount as int, start, goal),
        settled_closed(*graph, final(dist)@, visited@),
        settled_relaxed(*graph, final(dist)@, visited@),
        settled_min(final(dist)@, visited@),
        forall|w: int|
            0 <= w < visited@.len() && #[trigger] visited@[w] ==> final(dist)@[w] == old(dist)@[w],
{
    let n: usize = graph.nodes.len();
    let dbest: u64 = dist[best];
    let hb: usize = hops[best];
    let deg: usize = graph.adjacency[best].len();
    let mut j: usize = 0;
    while j < deg
        invariant
            j <= deg,
            dist@[best as int] == dbest,
            hops@[best as int] == hb,
            tentative_ok(*graph, dist@, prev@, hops@, visited@, vcount as int, start, goal),
            settled_closed_except(*graph, dist@, visited@, best),
            settled_relaxed_except(*graph, dist@, visited@, best),
            forall|w: int|
                0 <= w < visited@.len() && #[trigger] visited@[w] ==> dist@[w] == old(dist)@[w],
            forall|u: int|
                0 <= u < visited@.len() && !visited@[u] && #[trigger] dist@[u] < u64::MAX ==> dbest
                    <= dist@[u],
            forall|j2: int|
                0 <= j2 < j ==> dist@[graph.edges@[#[trigger] graph.adjacency@[best as int]@[j2]
                    as int].to as int] < u64::MAX,
            forall|j2: int|
                0 <= j2 < j ==> dist@[graph.edges@[#[trigger] graph.adjacency@[best as int]@[j2]
                    as int].to as int] as int <= dbest as int + graph.edges@[graph.adjacency@[
                    best as int
                ]@[j2] as int].length as int,
        decreases deg - j,
    {
        let k: usize = graph.adjacency[best][j];
        proof {
            assert(graph.adjacency@[best as int]@[j as int] == k);
            assert(k < graph.edges@.len() && graph.edges@[k as int].from == best);
            assert(edge_ok(graph.nodes@, graph.edges@[k as int]));
            lemma_edge_length_bound(*graph, k as int);
            lemma_mul_mono(
                hb as int + 1,
                MAX_SEPARATION as int,
                n as int,
                MAX_SEPARATION as int,
            );
            lemma_mul_mono(
                n as int,
                MAX_SEPARATION as int,
                NODE_LIMIT as int,
                MAX_SEPARATION as int,
            );
            assert((NODE_LIMIT as int) * (MAX_SEPARATION as int) == 3_000_000_000_000_000_000);
        }
        let e_to: usize = graph.edges[k].to;
        let e_len: u64 = graph.edges[k].length;
        if !visited[e_to] {
            let nc: u64 = dbest + e_len;
            if nc < dist[e_to] {
                dist[e_to] = nc;
                prev[e_to] = best;
                hops[e_to] = hb + 1;
                proof {
                    assert(edge_exists(*graph, best, e_to));
                    lemma_edge_cost(*graph, k as int);
                    assert(e_len as int == leg_cost(*graph, best, e_to));
                }
            }
        }
        j += 1;
    }
    proof {
        lemma_relax_complete(*graph, dist@, visited@, best, dbest);
    }
}

/// Once every outgoing edge of the just-settled node has been relaxed, every
/// settled node has relaxed all its edges, and no settled tentative distance
/// can still improve.
proof fn lemma_relax_complete(
    g: CityGraph,
    dist: Seq<u64>,
    visited: Seq<bool>,
    best: usize,
    dbest: u64,
)
    requires
        graph_wf(g),
        dist.len() == g.nodes@.len(),
        visited.len() == g.nodes@.len(),
        best < g.nodes@.len(),
        visited[best as int],
        dist[best as int] == dbest,
        settled_closed_except(g, dist, visited, best),
        settled_relaxed_except(g, dist, visited, best),
        forall|j2: int|
            0 <= j2 < g.adjacency@[best as int]@.len() ==> dist[g.edges@[#[trigger] g.adjacency@[
                best as int
            ]@[j2] as int].to as int] < u64::MAX,
        forall|j2: int|
            0 <= j2 < g.adjacency@[best as int]@.len() ==> dist[g.edges@[#[trigger] g.adjacency@[
                best as int
            ]@[j2] as int].to as int] as int <= dbest as int + g.edges@[g.adjacency@[best as int]@[
                j2
            ] as int].length as int,
        forall|w: int| 0 <= w < visited.len() && #[trigger] visited[w] ==> dist[w] <= dbest,
        forall|u: int|
            0 <= u < visited.len() && !visited[u] && #[trigger] dist[u] < u64::MAX ==> dbest
                <= dist[u],
    ensures
        settled_closed(g, dist, visited),
        settled_relaxed(g, dist, visited),
        settled_min(dist, visited),
{
    assert forall|w: int, u: int|
        0 <= w < dist.len() && 0 <= u < dist.len() && #[trigger] visited[w] && !visited[u]
            && #[trigger] dist[u] < u64::MAX implies dist[w] <= dist[u] by {
        assert(dist[w] <= dbest);
        assert(dbest <= dist[u]);
    }
    assert forall|k: int|
        0 <= k < g.edges@.len() && visited[(#[trigger] g.edges@[k]).from as int] implies dist[
        g.edges@[k].to as int
    ] < u64::MAX && dist[g.edges@[k].to as int] as int <= dist[g.edges@[k].from as int] as int
        + g.edges@[k].length as int by {
        if g.edges@[k].from == best {
            assert(edge_listed(g, k));
            let j2 = choose|j2: int|
                0 <= j2 < g.adjacency@[g.edges@[k].from as int]@.len() && g.adjacency@[g.edges@[
                    k
                ].from as int]@[j2] == k;
            assert(dist[g.edges@[g.adjacency@[best as int]@[j2] as int].to as int] < u64::MAX);
            assert(dist[g.edges@[g.adjacency@[best as int]@[j2] as int].to as int] as int <= dbest
                as int + g.edges@[g.adjacency@[best as int]@[j2] as int].length as int);
        }
    }
}

/// Dijkstra's shortest-path search from `start`, stopping as soon as `goal`
/// is selected. Returns a node path from `start` to `goal` whose consecutive
/// nodes are distinct, or `None` exactly when `goal` is unreachable.
#[verifier::loop_isolation(false)]
#[verifier::rlimit(100)]
fn dijkstra(graph: &CityGraph, start: usize, goal: usize) -> (r: Option<Vec<usize>>)
    requires
        graph_wf(*graph),
        start < graph.nodes@.len(),
        goal < graph.nodes@.len(),
        graph.nodes@.len() <= NODE_LIMIT,
    ensures
        r matches Some(p) ==> is_path(*graph, p@, start, goal) && (forall|i: int|
            0 <= i < p@.len() - 1 ==> (#[trigger] p@[i]) != p@[i + 1]),
        r matches Some(p) ==> (start == goal ==> p@.len() == 1),
        r matches Some(p) ==> (forall|q: Seq<usize>|
            #[trigger] is_path(*graph, q, start, goal) ==> path_cost(*graph, p@) <= path_cost(
                *graph,
                q,
            )),
        (r is Some) <==> reachable(*graph, start, goal),
{
    let n: usize = graph.nodes.len();
    let mut dist: Vec<u64> = Vec::new();
    let mut prev: Vec<usize> = Vec::new();
    let mut hops: Vec<usize> = Vec::new();
    let mut visited: Vec<bool> = Vec::new();
    let mut t: usize = 0;
    while t < n
        invariant
            t <= n,
            dist@.len() == t,
            prev@.len() == t,
            hops@.len() == t,
            visited@.len() == t,
            forall|u: int| 0 <= u < t ==> #[trigger] dist@[u] == u64::MAX,
            forall|u: int| 0 <= u < t ==> #[trigger] prev@[u] == usize::MAX,
            forall|u: int| 0 <= u < t ==> #[trigger] hops@[u] == 0,
            forall|u: int| 0 <= u < t ==> #[trigger] visited@[u] == false,
        decreases n - t,
    {
        dist.push(u64::MAX);
        prev.push(usize::MAX);
        hops.push(0);
        visited.push(false);
        t += 1;
    }
    dist[start] = 0;
    let ghost range_set = set_int_range(0, n as int);
    let ghost mut vset: Set<int> = Set::empty();
    let mut vcount: usize = 0;
    let mut done: bool = false;
    proof {
        lemma_int_range(0, n as int);
    }
    while !done
        invariant
            vset.finite(),
            vset.len() == vcount,
            vcount <= n,
            vset.subset_of(range_set),
            forall|u: int| 0 <= u < n ==> (#[trigger] visited@[u] <==> vset.contains(u)),
            tentative_ok(*graph, dist@, prev@, hops@, visited@, vcount as int, start, goal),
            settled_closed(*graph, dist@, visited@),
            settled_relaxed(*graph, dist@, visited@),
            settled_min(dist@, visited@),
            settled_opt(*graph, dist@, visited@, start),
            done ==> dist@[goal as int] < u64::MAX || (forall|u: int|
                0 <= u < n && #[trigger] dist@[u] < u64::MAX ==> visited@[u]),
            done && dist@[goal as int] < u64::MAX ==> (forall|q: Seq<usize>|
                #[trigger] is_path(*graph, q, start, goal) ==> path_cost(*graph, q) >= dist@[
                    goal as int
                ] as int),
        decreases 2 * (n - vcount) + (if done { 0int } else { 1 }),
    {
        let best: usize = select_min(&dist, &visited);
        if best == n {
            proof {
                assert(!visited@[goal as int]);
                assert(dist@[goal as int] == u64::MAX);
            }
            done = true;
        } else if best == goal {
            proof {
                assert forall|q: Seq<usize>| #[trigger] is_path(*graph, q, start, goal)
                    implies path_cost(*graph, q) >= dist@[goal as int] as int by {
                    lemma_selected_bound(*graph, dist@, visited@, start, goal, q);
                }
            }
            done = true;
        } else {
            let ghost dist_pre = dist@;
            let ghost visited_pre = visited@;
            proof {
                assert forall|q: Seq<usize>| #[trigger] is_path(*graph, q, start, best)
                    implies path_cost(*graph, q) >= dist_pre[best as int] as int by {
                    lemma_selected_bound(*graph, dist_pre, visited_pre, start, best, q);
                }
                axiom_set_insert_len(vset, best as int);
                lemma_len_subset(vset.insert(best as int), range_set);
                vset = vset.insert(best as int);
            }
            visited[best] = true;
            vcount += 1;
            proof {
                assert(settled_closed_except(*graph, dist@, visited@, best));
                assert(settled_relaxed_except(*graph, dist@, visited@, best));
                assert forall|w: int|
                    0 <= w < visited@.len() && #[trigger] visited@[w] implies dist@[w] <= dist@[
                    best as int
                ] by {
                    if w != best {
                        assert(visited_pre[w]);
                        assert(dist_pre[best as int] < u64::MAX);
                        assert(dist@[w] <= dist@[best as int]);
                    }
                }
            }
            relax_node(
                graph,
                &mut dist,
                &mut prev,
                &mut hops,
                &visited,
                best,
                vcount,
                start,
                goal,
            );
            proof {
                assert forall|w: usize, q: Seq<usize>|
                    w < dist@.len() && visited@[w as int] && #[trigger] is_path(
                        *graph,
                        q,
                        start,
                        w,
                    ) implies path_cost(*graph, q) >= dist@[w as int] as int by {
                    assert(dist@[w as int] == dist_pre[w as int]);
                    if w != best {
                        assert(visited_pre[w as int]);
                        assert(path_cost(*graph, q) >= dist_pre[w as int] as int);
                    }
                }
                assert(settled_opt(*graph, dist@, visited@, start));
            }
        }
    }
    if dist[goal] == u64::MAX {
        proof {
            if reachable(*graph, start, goal) {
                let p = choose|p: Seq<usize>| is_path(*graph, p, start, goal);
                lemma_path_prefix_finite(*graph, p, dist@, visited@, start, goal, p.len() - 1);
            }
        }
        return None;
    }
    let path = rebuild_path(graph, &dist, &prev, &hops, &visited, vcount, start, goal);
    proof {
        assert(reachable(*graph, start, goal));
        assert forall|q: Seq<usize>| #[trigger] is_path(*graph, q, start, goal)
            implies path_cost(*graph, path@) <= path_cost(*graph, q) by {
            assert(path_cost(*graph, q) >= dist@[goal as int] as int);
        }
    }
    Some(path)
}

/// Walk the predecessor chain from the goal back to the start: the chain,
/// reversed, is a walk from the start to the goal that costs exactly the
/// goal's tentative distance.
#[verifier::loop_isolation(false)]
#[verifier::rlimit(100)]
fn walk_chain(
    graph: &CityGraph,
    dist: &Vec<u64>,
    prev: &Vec<usize>,
    hops: &Vec<usize>,
    visited: &Vec<bool>,
    vcount: usize,
    start: usize,
    goal: usize,
) -> (rev: Vec<usize>)
    requires
        graph_wf(*graph),
        tentative_ok(*graph, dist@, prev@, hops@, visited@, vcount as int, start, goal),
        dist@[goal as int] < u64::MAX,
    ensures
        rev@.len() >= 1,
        rev@[0] == goal,
        rev@[rev@.len() - 1] == start,
        start == goal ==> rev@.len() == 1,
        forall|i: int| 0 <= i < rev@.len() ==> (#[trigger] rev@[i]) < graph.nodes@.len(),
        forall|i: int|
            0 <= i < rev@.len() - 1 ==> edge_exists(*graph, #[trigger] rev@[i + 1], rev@[i])
                && rev@[i + 1] != rev@[i],
        path_cost(*graph, rev@.reverse()) == dist@[goal as int] as int,
{
    let n: usize = graph.nodes.len();
    let mut rev: Vec<usize> = Vec::new();
    rev.push(goal);
    let mut cur: usize = goal;
    proof {
        assert(rev@.reverse() =~= rev@);
    }
    while cur != start
        invariant
            cur < n,
            dist@[cur as int] < u64::MAX,
            rev@.len() >= 1,
            rev@[0] == goal,
            rev@[rev@.len() - 1] == cur,
            start == goal ==> rev@.len() == 1,
            forall|i: int| 0 <= i < rev@.len() ==> (#[trigger] rev@[i]) < n,
            forall|i: int|
                0 <= i < rev@.len() - 1 ==> edge_exists(*graph, #[trigger] rev@[i + 1], rev@[i])
                    && rev@[i + 1] != rev@[i],
            path_cost(*graph, rev@.reverse()) == dist@[goal as int] as int - dist@[cur as int]
                as int,
        decreases hops@[cur as int],
    {
        let parent: usize = prev[cur];
        let ghost rev_old = rev@;
        rev.push(parent);
        proof {
            assert(rev@.reverse() =~= seq![parent] + rev_old.reverse());
            let ext = seq![parent] + rev_old.reverse();
            assert(ext[0] == parent);
            assert(ext.drop_first() =~= rev_old.reverse());
            assert(rev_old.reverse()[0] == rev_old[rev_old.len() - 1]);
            assert(ext.len() >= 2);
            assert(path_cost(*graph, ext) == leg_cost(*graph, parent, cur) + path_cost(
                *graph,
                rev_old.reverse(),
            ));
            assert(dist@[cur as int] as int == dist@[parent as int] as int + leg_cost(
                *graph,
                parent,
                cur,
            ));
        }
        cur = parent;
    }
    rev
}

/// Reverse the predecessor chain into the node path from start to goal.
#[verifier::loop_isolation(false)]
#[verifier::rlimit(100)]
fn rebuild_path(
    graph: &CityGraph,
    dist: &Vec<u64>,
    prev: &Vec<usize>,
    hops: &Vec<usize>,
    visited: &Vec<bool>,
    vcount: usize,
    start: usize,
    goal: usize,
) -> (path: Vec<usize>)
    requires
        graph_wf(*graph),
        tentative_ok(*graph, dist@, prev@, hops@, visited@, vcount as int, start, goal),
        dist@[goal as int] < u64::MAX,
    ensures
        is_path(*graph, path@, start, goal),
        forall|i: int| 0 <= i < path@.len() - 1 ==> (#[trigger] path@[i]) != path@[i + 1],
        start == goal ==> path@.len() == 1,
        path_cost(*graph, path@) == dist@[goal as int] as int,
{
    let rev: Vec<usize> = walk_chain(graph, dist, prev, hops, visited, vcount, start, goal);
    let m: usize = rev.len();
    let mut path: Vec<usize> = Vec::new();
    let mut idx: usize = m;
    while idx > 0
        invariant
            idx <= m,
            m == rev@.len(),
            path@.len() == m - idx,
            forall|i: int| 0 <= i < path@.len() ==> #[trigger] path@[i] == rev@[m - 1 - i],
        decreases idx,
    {
        idx -= 1;
        path.push(rev[idx]);
    }
    proof {
        assert(dist@[start as int] == 0);
        lemma_reversed_chain(*graph, rev@, path@, start, goal);
    }
    path
}

/// Reversing a predecessor chain from the goal yields a walk from the start
/// to the goal of the same total cost.
proof fn lemma_reversed_chain(
    g: CityGraph,
    rev: Seq<usize>,
    path: Seq<usize>,
    start: usize,
    goal: usize,
)
    requires
        rev.len() >= 1,
        rev[0] == goal,
        rev[rev.len() - 1] == start,
        path.len() == rev.len(),
        forall|i: int| 0 <= i < path.len() ==> #[trigger] path[i] == rev[rev.len() - 1 - i],
        forall|i: int| 0 <= i < rev.len() ==> (#[trigger] rev[i]) < g.nodes@.len(),
        forall|i: int|
            0 <= i < rev.len() - 1 ==> edge_exists(g, #[trigger] rev[i + 1], rev[i]) && rev[i + 1]
                != rev[i],
    ensures
        is_path(g, path, start, goal),
        forall|i: int| 0 <= i < path.len() - 1 ==> (#[trigger] path[i]) != path[i + 1],
        path_cost(g, path) == path_cost(g, rev.reverse()),
{
    let m = rev.len();
    assert(path[0] == start);
    assert(path[path.len() - 1] == goal);
    assert forall|i: int|
        0 <= i < path.len() - 1 implies edge_exists(g, #[trigger] path[i], path[i + 1]) && path[i]
        != path[i + 1] by {
        assert(path[i] == rev[m - 1 - i]);
        assert(path[i + 1] == rev[m - 1 - (i + 1)]);
        assert(edge_exists(g, rev[(m - 2 - i) + 1], rev[m - 2 - i]));
    }
    assert(is_path(g, path, start, goal));
    assert(path =~= rev.reverse());
}

/// A route exists between snapped nodes `s` and `gl`: they are distinct and
/// `gl` is reachable from `s`.
pub open spec fn route_exists(g: CityGraph, s: usize, gl: usize) -> bool {
    s != gl && reachable(g, s, gl)
}

/// The waypoint sequence `w` renders the node path `p`: each waypoint sits
/// on its node, carries the displacement to the next node and the Euclidean
/// distance to it, and the final waypoint is the zero sentinel.
pub open spec fn waypoints_match(g: CityGraph, p: Seq<usize>, w: Seq<Waypoint>) -> bool {
    &&& w.len() == p.len()
    &&& forall|i: int|
        0 <= i < w.len() ==> (#[trigger] w[i]).x == g.nodes@[p[i] as int].x && w[i].y == g.nodes@[
            p[i] as int
        ].y
    &&& forall|i: int|
        0 <= i < w.len() - 1 ==> (#[trigger] w[i]).dir_x == g.nodes@[p[i + 1] as int].x - g.nodes@[
            p[i] as int
        ].x && w[i].dir_y == g.nodes@[p[i + 1] as int].y - g.nodes@[p[i] as int].y && is_sqrt_floor(
            dist_sq(node_point(g.nodes@[p[i] as int]), node_point(g.nodes@[p[i + 1] as int])),
            w[i].dist_to_next as int,
        )
    &&& w.len() >= 1 ==> w[w.len() - 1].dir_x == 0 && w[w.len() - 1].dir_y == 0 && w[w.len()
        - 1].dist_to_next == 0
}

/// `w` renders a shortest walk of at least two pairwise-consecutive-distinct
/// nodes from `s` to `gl`: no walk between the two nodes is shorter.
pub open spec fn plan_ok(g: CityGraph, s: usize, gl: usize, w: Seq<Waypoint>) -> bool {
    exists|p: Seq<usize>|
        is_path(g, p, s, gl) && p.len() >= 2 && (forall|i: int|
            0 <= i < p.len() - 1 ==> (#[trigger] p[i]) != p[i + 1]) && waypoints_match(g, p, w)
            && (forall|q: Seq<usize>|
            #[trigger] is_path(g, q, s, gl) ==> path_cost(g, p) <= path_cost(g, q))
}

/// Snap `start` and `dest` to their nearest graph nodes and compute the
/// waypoint route between them, along a walk no longer than any other walk
/// between the two nodes. Returns `None` exactly when both points snap to
/// the same node or the destination node is unreachable from the start node.
/// Every waypoint but the last carries a nonzero displacement whose
/// Euclidean length is its distance to the next waypoint; the last is the
/// zero sentinel.
#[verifier::loop_isolation(false)]
#[verifier::rlimit(60)]
pub fn compute_path(graph: &CityGraph, start: &Point, dest: &Point) -> (r: Option<Vec<Waypoint>>)
    requires
        graph_wf(*graph),
        1 <= graph.nodes@.len() <= NODE_LIMIT,
        point_in_bounds(*start),
        point_in_bounds(*dest),
    ensures
        forall|s: usize, gl: usize|
            is_nearest(graph.nodes@, *start, s as int) && is_nearest(graph.nodes@, *dest, gl as int)
                ==> ((r is Some) <==> route_exists(*graph, s, gl)) && (r matches Some(w)
                ==> plan_ok(*graph, s, gl, w@)),
        r matches Some(w) ==> w@.len() >= 2,
        r matches Some(w) ==> w@[w@.len() - 1].dir_x == 0 && w@[w@.len() - 1].dir_y == 0 && w@[
            w@.len() - 1
        ].dist_to_next == 0,
        r matches Some(w) ==> forall|i: int|
            0 <= i < w@.len() ==> is_sqrt_floor(
                (#[trigger] w@[i]).dir_x * w@[i].dir_x + w@[i].dir_y * w@[i].dir_y,
                w@[i].dist_to_next as int,
            ),
        r matches Some(w) ==> nodes_separated(graph.nodes@) ==> forall|i: int|
            0 <= i < w@.len() - 1 ==> (#[trigger] w@[i]).dist_to_next > 0 && (w@[i].dir_x != 0
                || w@[i].dir_y != 0),
{
    let start_node: usize = graph.nearest_node(start.x, start.y);
    let goal_node: usize = graph.nearest_node(dest.x, dest.y);
    let node_path: Vec<usize> = match dijkstra(graph, start_node, goal_node) {
        Some(p) => p,
        None => {
            proof {
                assert forall|s: usize, gl: usize|
                    is_nearest(graph.nodes@, *start, s as int) && is_nearest(
                        graph.nodes@,
                        *dest,
                        gl as int,
                    ) implies !route_exists(*graph, s, gl) by {
                    lemma_is_nearest_unique(graph.nodes@, *start, s as int, start_node as int);
                    lemma_is_nearest_unique(graph.nodes@, *dest, gl as int, goal_node as int);
                }
            }
            return None;
        },
    };
    if node_path.len() < 2 {
        proof {
            assert(node_path@[0] == start_node);
            assert(node_path@[node_path@.len() - 1] == goal_node);
            assert(start_node == goal_node);
            assert forall|s: usize, gl: usize|
                is_nearest(graph.nodes@, *start, s as int) && is_nearest(
                    graph.nodes@,
                    *dest,
                    gl as int,
                ) implies !route_exists(*graph, s, gl) by {
                lemma_is_nearest_unique(graph.nodes@, *start, s as int, start_node as int);
                lemma_is_nearest_unique(graph.nodes@, *dest, gl as int, goal_node as int);
            }
        }
        return None;
    }
    let plen: usize = node_path.len();
    let mut waypoints: Vec<Waypoint> = Vec::new();
    let mut i: usize = 0;
    while i < plen - 1
        invariant
            i <= plen - 1,
            waypoints@.len() == i,
            forall|t: int|
                0 <= t < i ==> (#[trigger] waypoints@[t]).x == graph.nodes@[node_path@[t] as int].x
                    && waypoints@[t].y == graph.nodes@[node_path@[t] as int].y,
            forall|t: int|
                0 <= t < i ==> (#[trigger] waypoints@[t]).dir_x == graph.nodes@[node_path@[t + 1]
                    as int].x - graph.nodes@[node_path@[t] as int].x && waypoints@[t].dir_y
                    == graph.nodes@[node_path@[t + 1] as int].y - graph.nodes@[node_path@[t]
                    as int].y,
            forall|t: int|
                0 <= t < i ==> is_sqrt_floor(
                    dist_sq(
                        node_point(graph.nodes@[node_path@[t] as int]),
                        node_point(graph.nodes@[node_path@[t + 1] as int]),
                    ),
                    (#[trigger] waypoints@[t]).dist_to_next as int,
                ),
            forall|t: int|
                0 <= t < i ==> is_sqrt_floor(
                    (#[trigger] waypoints@[t]).dir_x * waypoints@[t].dir_x + waypoints@[t].dir_y
                        * waypoints@[t].dir_y,
                    waypoints@[t].dist_to_next as int,
                ),
        decreases plen - 1 - i,
    {
        let a_idx: usize = node_path[i];
        let b_idx: usize = node_path[i + 1];
        let a = graph.nodes[a_idx];
        let b = graph.nodes[b_idx];
        let pa = Point { x: a.x, y: a.y };
        let pb = Point { x: b.x, y: b.y };
        let d: u64 = euclid_distance(&pa, &pb);
        let dx: i64 = b.x - a.x;
        let dy: i64 = b.y - a.y;
        proof {
            crate::map::lemma_dist_sq_symmetric(pa, pb);
            assert(dist_sq(pb, pa) == dx * dx + dy * dy);
        }
        waypoints.push(Waypoint { x: a.x, y: a.y, dir_x: dx, dir_y: dy, dist_to_next: d });
        i += 1;
    }
    let last_idx: usize = node_path[plen - 1];
    let last = graph.nodes[last_idx];
    waypoints.push(Waypoint { x: last.x, y: last.y, dir_x: 0, dir_y: 0, dist_to_next: 0 });
    proof {
        assert(waypoints@[waypoints@.len() - 1].dir_x == 0);
        assert(is_sqrt_floor(0, 0));
        assert(waypoints_match(*graph, node_path@, waypoints@));
        assert(is_path(*graph, node_path@, start_node, goal_node));
        assert(plan_ok(*graph, start_node, goal_node, waypoints@));
        assert(reachable(*graph, start_node, goal_node));
        assert(route_exists(*graph, start_node, goal_node));
        assert forall|s: usize, gl: usize|
            is_nearest(graph.nodes@, *start, s as int) && is_nearest(
                graph.nodes@,
                *dest,
                gl as int,
            ) implies route_exists(*graph, s, gl) && plan_ok(*graph, s, gl, waypoints@) by {
            lemma_is_nearest_unique(graph.nodes@, *start, s as int, start_node as int);
            lemma_is_nearest_unique(graph.nodes@, *dest, gl as int, goal_node as int);
        }
        if nodes_separated(graph.nodes@) {
            assert forall|t: int|
                0 <= t < waypoints@.len() - 1 implies (#[trigger] waypoints@[t]).dist_to_next > 0
                && (waypoints@[t].dir_x != 0 || waypoints@[t].dir_y != 0) by {
                let na = graph.nodes@[node_path@[t] as int];
                let nb = graph.nodes@[node_path@[t + 1] as int];
                assert(node_path@[t] != node_path@[t + 1]);
                assert(dist_sq(node_point(na), node_point(nb)) >= ENDPOINT_EPSILON_SQ);
                crate::geometry::lemma_sqrt_floor_at_least(
                    dist_sq(node_point(na), node_point(nb)),
                    waypoints@[t].dist_to_next as int,
                    1000,
                );
                assert(1000 * 1000 == ENDPOINT_EPSILON_SQ);
                if waypoints@[t].dir_x == 0 && waypoints@[t].dir_y == 0 {
                    assert(dist_sq(node_point(na), node_point(nb)) == 0);
                }
            }
        }
    }
    Some(waypoints)
}

} // verus!
