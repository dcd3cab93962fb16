//! Weighted directed graph over integer-keyed nodes, and single-source
//! shortest distances by iterated edge relaxation with negative-cycle
//! detection.

use vstd::prelude::*;

verus! {

use std::collections::HashMap;

pub struct Node {
    pub key: usize,
}

pub struct Edge {
    pub from: Box<Node>,
    pub to: Box<Node>,
    pub weight: isize,
}

pub struct Graph {
    pub nodes: Vec<Box<Node>>,
    pub edges: Vec<Box<Edge>>,
}

impl Node {
    pub fn new(key: usize) -> (n: Node)
        ensures
            n.key == key,
    {
        Node { key }
    }
}

impl Edge {
    pub fn new(from: Node, to: Node, weight: isize) -> (e: Edge)
        ensures
            e.from.key == from.key,
            e.to.key == to.key,
            e.weight == weight,
    {
        Edge { from: Box::new(from), to: Box::new(to), weight }
    }
}

impl Graph {
    pub fn new() -> (g: Graph)
        ensures
            g.nodes@.len() == 0,
            g.edges@.len() == 0,
    {
        Graph { nodes: Vec::new(), edges: Vec::new() }
    }
}

/// The set of keys the graph's nodes carry.
pub open spec fn key_set(g: Graph) -> Set<usize> {
    Set::new(|k: usize| exists|i: int| 0 <= i < g.nodes@.len() && g.nodes@[i].key == k)
}

/// One edge cannot improve on the recorded distances: either an endpoint is
/// unknown, the sum leaves `isize`, or the recorded target distance already
/// undercuts it.
pub open spec fn edge_settled(m: Map<usize, isize>, e: Edge) -> bool {
    m.dom().contains(e.from.key) && m.dom().contains(e.to.key) ==> {
        let s = m[e.from.key] + e.weight;
        s < isize::MIN || s > isize::MAX || m[e.to.key] <= s
    }
}

/// A directed walk through the graph's edge list: each entry indexes an
/// edge, and consecutive edges chain key to key from `a` to `b`.
pub open spec fn is_walk(g: Graph, p: Seq<int>, a: usize, b: usize) -> bool
    decreases p.len(),
{
    if p.len() == 0 {
        a == b
    } else {
        let e = p[0];
        &&& 0 <= e < g.edges@.len()
        &&& g.edges@[e].from.key == a
        &&& is_walk(g, p.drop_first(), g.edges@[e].to.key, b)
    }
}

/// The total weight of a walk.
pub open spec fn walk_weight(g: Graph, p: Seq<int>) -> int
    decreases p.len(),
{
    if p.len() == 0 {
        0
    } else {
        g.edges@[p[0]].weight + walk_weight(g, p.drop_first())
    }
}

/// Fixpoint law: a distance map that no edge can improve (what
/// `bellman_ford` returns whenever its flag is clear) is compatible with
/// every walk whose single-edge relaxations stay within `isize`: the
/// distance recorded at a walk's end never exceeds the distance at its
/// start plus the walk's weight. With the source at or below 0, every
/// recorded distance is therefore bounded by the weight of every such walk
/// that reaches it from the source.
pub proof fn lemma_settled_walks(g: Graph, m: Map<usize, isize>, p: Seq<int>, a: usize, b: usize)
    requires
        forall|j: int| 0 <= j < g.edges@.len() ==> edge_settled(m, *#[trigger] g.edges@[j]),
        is_walk(g, p, a, b),
        m.dom().contains(a),
        forall|k: int|
            0 <= k < p.len() ==> m.dom().contains((#[trigger] g.edges@[p[k]]).to.key),
        forall|k: int|
            0 <= k < p.len() ==> m.dom().contains((#[trigger] g.edges@[p[k]]).from.key),
        forall|k: int|
            0 <= k < p.len() ==> isize::MIN <= m[(#[trigger] g.edges@[p[k]]).from.key]
                + g.edges@[p[k]].weight <= isize::MAX,
    ensures
        m[b] <= m[a] + walk_weight(g, p),
    decreases p.len(),
{
    if p.len() > 0 {
        let e = g.edges@[p[0]];
        let mid = e.to.key;
        assert(edge_settled(m, *g.edges@[p[0]]));
        assert(m[mid] <= m[a] + e.weight);
        let rest = p.drop_first();
        assert forall|k: int|
            0 <= k < rest.len() implies m.dom().contains(
            (#[trigger] g.edges@[rest[k]]).to.key,
        ) && m.dom().contains(g.edges@[rest[k]].from.key) && isize::MIN <= m[g.edges@[
            rest[k]
        ].from.key] + g.edges@[rest[k]].weight <= isize::MAX by {
            assert(rest[k] == p[k + 1]);
            assert(m.dom().contains((g.edges@[p[k + 1]]).to.key));
            assert(m.dom().contains((g.edges@[p[k + 1]]).from.key));
        }
        lemma_settled_walks(g, m, rest, mid, b);
    }
}

/// Single-source shortest distances: every node key starts at `isize::MAX`
/// (the source at 0) and is lowered by up to `n` rounds of edge relaxation;
/// the flag reports a relaxation in the final round, the witness of a
/// reachable negative cycle. When the flag is clear, no edge can lower any
/// recorded distance further, and `lemma_settled_walks` then bounds every
/// recorded distance by the weight of every in-range walk from the source.
pub fn bellman_ford(graph: &Graph, src_node: usize) -> (r: (HashMap<usize, isize>, bool))
    ensures
        r.0@.dom() == key_set(*graph),
        key_set(*graph).contains(src_node) ==> r.0@[src_node] <= 0,
        !r.1 ==> forall|j: int|
            0 <= j < graph.edges@.len() ==> edge_settled(r.0@, *#[trigger] graph.edges@[j]),
{
    let mut shortest_distances: HashMap<usize, isize> = HashMap::new();
    let num_nodes = graph.nodes.len();

    let mut idx: usize = 0;
    proof {
        assert(shortest_distances@.dom() =~= Set::new(
            |k: usize| exists|i: int| 0 <= i < 0 && graph.nodes@[i].key == k,
        ));
    }
    while idx < num_nodes
        invariant
            num_nodes == graph.nodes@.len(),
            idx <= num_nodes,
            shortest_distances@.dom() =~= Set::new(
                |k: usize|
                    exists|i: int| 0 <= i < idx as int && (#[trigger] graph.nodes@[i]).key == k,
            ),
            shortest_distances@.dom().contains(src_node) ==> shortest_distances@[src_node] <= 0,
        decreases num_nodes - idx,
    {
        let node = &graph.nodes[idx];
        if node.key == src_node {
            shortest_distances.insert(node.key, 0);
        } else {
            shortest_distances.insert(node.key, isize::MAX);
        }
        proof {
            assert(shortest_distances@.dom() =~= Set::new(
                |k: usize|
                    exists|i: int|
                        0 <= i < idx + 1 && (#[trigger] graph.nodes@[i]).key == k,
            ));
        }
        idx = idx + 1;
    }
    proof {
        assert(shortest_distances@.dom() =~= key_set(*graph));
    }

    let num_edges = graph.edges.len();
    let mut contains_negative_cycle: bool = false;

    let mut i: usize = 0;
    while i < num_nodes
        invariant
            num_nodes == graph.nodes@.len(),
            num_edges == graph.edges@.len(),
            i <= num_nodes,
            shortest_distances@.dom() == key_set(*graph),
            shortest_distances@.dom().contains(src_node) ==> shortest_distances@[src_node] <= 0,
            i == num_nodes && !contains_negative_cycle && num_nodes > 0 ==> forall|j: int|
                0 <= j < graph.edges@.len() ==> edge_settled(
                    shortest_distances@,
                    *#[trigger] graph.edges@[j],
                ),
        decreases num_nodes - i,
    {
        let mut j: usize = 0;
        while j < num_edges
            invariant
                num_nodes == graph.nodes@.len(),
                num_edges == graph.edges@.len(),
                i < num_nodes,
                j <= num_edges,
                shortest_distances@.dom() == key_set(*graph),
                shortest_distances@.dom().contains(src_node) ==> shortest_distances@[src_node]
                    <= 0,
                i == num_nodes - 1 && !contains_negative_cycle ==> forall|jj: int|
                    0 <= jj < j as int ==> edge_settled(
                        shortest_distances@,
                        *#[trigger] graph.edges@[jj],
                    ),
            decreases num_edges - j,
        {
            let ghost pre = shortest_distances@;
            let edge = &graph.edges[j];
            let u = edge.from.key;
            let v = edge.to.key;
            let w = edge.weight;
            let mut relaxed = false;
            let du = shortest_distances.get(&u);
            match du {
                Some(x) => {
                    let x = *x;
                    let dv = shortest_distances.get(&v);
                    match dv {
                        Some(y) => {
                            let y = *y;
                            match x.checked_add(w) {
                                Some(s) => {
                                    if s < y {
                                        if i == num_nodes - 1 {
                                            contains_negative_cycle = true;
                                        }
                                        shortest_distances.insert(v, s);
                                        relaxed = true;
                                        proof {
                                            assert(pre.dom().contains(v));
                                            assert(shortest_distances@.dom() =~= pre.dom());
                                        }
                                    }
                                },
                                None => {},
                            }
                        },
                        None => {},
                    }
                },
                None => {},
            }
            proof {
                if !relaxed {
                    assert(shortest_distances@ == pre);
                    assert(edge_settled(shortest_distances@, *graph.edges@[j as int]));
                }
            }
            j = j + 1;
        }
        i = i + 1;
    }
    (shortest_distances, contains_negative_cycle)
}

} // verus!
