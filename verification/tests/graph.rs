use algokit::graph::{bellman_ford, Edge, Graph, Node};

fn build(edges: &[(usize, usize, isize)], n: usize) -> Graph {
    let mut g = Graph::new();
    for k in 0..n {
        g.nodes.push(Box::new(Node::new(k)));
    }
    for (u, v, w) in edges {
        g.edges.push(Box::new(Edge::new(Node::new(*u), Node::new(*v), *w)));
    }
    g
}

#[test]
fn shortest_distances_on_a_dag() {
    let g = build(&[(0, 1, 2), (1, 2, 3), (0, 2, 10)], 4);
    let (dist, neg) = bellman_ford(&g, 0);
    assert!(!neg);
    assert_eq!(dist[&0], 0);
    assert_eq!(dist[&1], 2);
    assert_eq!(dist[&2], 5);
    assert_eq!(dist[&3], isize::MAX);
}

#[test]
fn negative_edges_without_a_cycle() {
    let g = build(&[(0, 1, 5), (1, 2, -3), (2, 3, 2)], 4);
    let (dist, neg) = bellman_ford(&g, 0);
    assert!(!neg);
    assert_eq!(dist[&2], 2);
    assert_eq!(dist[&3], 4);
}

#[test]
fn a_reachable_negative_cycle_is_reported() {
    // the cycle 3 -> 5 -> 4 -> 3 has total weight -2
    let g = build(
        &[
            (0, 1, 5),
            (1, 2, 1),
            (1, 3, 2),
            (2, 4, 1),
            (4, 3, -1),
            (3, 5, 2),
            (5, 4, -3),
        ],
        6,
    );
    let (_, neg) = bellman_ford(&g, 0);
    assert!(neg);
}

#[test]
fn empty_graph_yields_an_empty_map() {
    let g = Graph::new();
    let (dist, neg) = bellman_ford(&g, 0);
    assert!(dist.is_empty());
    assert!(!neg);
}
