use fa_leiden_cd::{Binary32, EdgeInfo, Graph};

fn single(x: f32) -> Binary32 {
    Binary32::from_bits(x.to_bits())
}

fn weight_between<N, E>(g: &Graph<N, E>, a: usize, b: usize) -> Option<f32> {
    g.try_get_edge_between(a, b).map(|edge| f32::from_bits(edge.weight.to_bits()))
}

fn triangle() -> Graph<&'static str, u8> {
    let mut g = Graph::new();
    for name in ["a", "b", "c", "d"] {
        g.add_node(name);
    }
    g.add_edge(0, 1, 1, single(1.0));
    g.add_edge(2, 1, 2, single(2.0));
    g.add_edge(0, 2, 3, single(4.0));
    g
}

#[test]
fn nodes_are_numbered_in_order() {
    let mut g: Graph<&str, ()> = Graph::new();
    assert_eq!(g.count_nodes(), 0);
    assert_eq!(g.add_node("a"), 0);
    assert_eq!(g.add_node("b"), 1);
    assert_eq!(g.count_nodes(), 2);
    assert_eq!(g.node_data_slice(), ["a", "b"].as_slice());
}

#[test]
fn default_graph_is_empty() {
    let g: Graph<u8, u8> = Graph::default();
    let (nodes, edges, connections, inner, total) = g.into_parts();
    assert!(nodes.is_empty() && edges.is_empty() && connections.is_empty() && inner.is_empty());
    assert_eq!(total.to_bits(), 0);
}

#[test]
fn loops_are_refused() {
    let mut g = triangle();
    assert_eq!(g.add_edge(1, 1, 9, single(5.0)), None);
    assert_eq!(g.add_edge(77, 77, 9, single(5.0)), None);
    let (_, edges, _, _, total) = g.into_parts();
    assert_eq!(edges.len(), 3);
    assert_eq!(total.to_bits(), 7.0f32.to_bits());
}

#[test]
fn edges_are_found_both_ways() {
    let g = triangle();
    assert_eq!(weight_between(&g, 0, 1), Some(1.0));
    assert_eq!(weight_between(&g, 1, 0), Some(1.0));
    assert_eq!(weight_between(&g, 1, 2), Some(2.0));
    assert_eq!(g.try_get_edge_between(2, 0).map(|e| (e.edge_data, e.id)), Some((3, 2)));
    assert_eq!(weight_between(&g, 0, 3), None);
    assert_eq!(weight_between(&g, 0, 99), None);
    assert_eq!(weight_between(&g, 0, 0), None);
}

#[test]
fn edges_added_again_gain_weight() {
    let mut g = triangle();
    assert_eq!(g.add_edge(1, 0, 7, single(0.5)), Some(0));
    assert_eq!(g.add_edge(3, 0, 8, single(0.25)), Some(3));
    let edge = g.try_get_edge_between(0, 1).map(|e| (e.edge_data, e.weight.to_bits(), e.id));
    assert_eq!(edge, Some((7, 1.5f32.to_bits(), 0)));
    // The others stay.
    assert_eq!(weight_between(&g, 1, 2), Some(2.0));
    assert_eq!(weight_between(&g, 0, 2), Some(4.0));
    let (_, edges, _, _, total) = g.into_parts();
    assert_eq!(edges.len(), 4);
    assert_eq!(total.to_bits(), 7.75f32.to_bits());
}

#[test]
fn history_of_edges_decides() {
    let mut g: Graph<usize, char> = Graph::new();
    for i in 0..4 {
        g.add_node(i);
    }
    let history = [
        (2, 3, 'a', 0.1),
        (0, 1, 'b', 0.2),
        (1, 1, 'c', 9.0),
        (3, 2, 'd', 0.3),
        (1, 2, 'e', 0.4),
        (2, 3, 'f', 0.5),
    ];
    for (a, b, data, weight) in history {
        g.add_edge(a, b, data, single(weight));
    }
    let found = |a: usize, b: usize| {
        g.try_get_edge_between(a, b).map(|e| (e.edge_data, f32::from_bits(e.weight.to_bits()), e.id))
    };
    assert_eq!(found(2, 3), Some(('f', 0.1f32 + 0.3 + 0.5, 0)));
    assert_eq!(found(0, 1), Some(('b', 0.2, 1)));
    assert_eq!(found(2, 1), Some(('e', 0.4, 2)));
    assert_eq!(found(1, 3), None);
    let (_, edges, _, _, total) = g.into_parts();
    assert_eq!(edges.len(), 3);
    assert_eq!(total.to_bits(), (0.1f32 + 0.2 + 0.3 + 0.4 + 0.5).to_bits());
}

#[test]
fn total_weight_is_the_sum_of_the_edges() {
    // Whole numbers are added without rounding.
    let mut g: Graph<usize, ()> = Graph::new();
    for i in 0..5 {
        g.add_node(i);
    }
    for (a, b, weight) in [(0, 1, 3.0), (1, 2, 5.0), (0, 1, 4.0), (3, 4, 1.0), (2, 1, 2.0)] {
        g.add_edge(a, b, (), single(weight));
    }
    let (_, edges, _, _, total) = g.into_parts();
    let sum: f32 = edges.iter().map(|e| f32::from_bits(e.weight.to_bits())).sum();
    assert_eq!(f32::from_bits(total.to_bits()), sum);
    assert_eq!(sum, 15.0);
}

#[test]
fn direction_is_irrelevant() {
    let (mut g, mut h) = (triangle(), triangle());
    assert_eq!(g.add_edge(0, 3, 5, single(0.5)), h.add_edge(3, 0, 5, single(0.5)));
    assert_eq!(g.into_parts().2, h.into_parts().2);
}

#[test]
fn new_nodes_have_no_edges() {
    let mut g = triangle();
    let new = g.add_node("e");
    for other in 0..g.count_nodes() {
        assert_eq!(weight_between(&g, new, other), None);
        assert_eq!(weight_between(&g, other, new), None);
    }
    assert_eq!(weight_between(&g, 0, 1), Some(1.0));
}

#[test]
fn neighbours_are_kept_sorted() {
    let mut g: Graph<usize, ()> = Graph::new();
    for i in 0..6 {
        g.add_node(i);
    }
    for other in [4, 1, 5, 2, 3] {
        g.add_edge(0, other, (), single(1.0));
    }
    let (_, _, connections, _, _) = g.into_parts();
    assert_eq!(connections[0], vec![(1, 1), (2, 3), (3, 4), (4, 0), (5, 2)]);
    assert_eq!(connections[4], vec![(0, 0)]);
}

fn edge(id: usize) -> EdgeInfo<u8> {
    EdgeInfo { edge_data: 0, weight: single(1.0), id }
}

fn assemble(edges: Vec<EdgeInfo<u8>>, connections: Vec<Vec<(usize, usize)>>) -> bool {
    let inner = vec![single(0.0); 3];
    Graph::from_parts(vec![(), (), ()], edges, connections, inner, single(1.0)).is_some()
}

#[test]
fn parts_make_the_graph_again() {
    let (nodes, edges, connections, inner, total) = triangle().into_parts();
    assert!(inner.iter().all(|weight| weight.to_bits() == 0));
    let kept = connections.clone();
    match Graph::from_parts(nodes, edges, connections, inner, total) {
        Some(g) => {
            assert_eq!(weight_between(&g, 2, 1), Some(2.0));
            assert_eq!(g.node_data_slice(), ["a", "b", "c", "d"].as_slice());
            let (_, edges, connections, _, total) = g.into_parts();
            assert_eq!(edges.len(), 3);
            assert_eq!(connections, kept);
            assert_eq!(total.to_bits(), 7.0f32.to_bits());
        }
        None => panic!("the parts of a graph make a graph"),
    }
}

#[test]
fn parts_that_fit_are_taken() {
    assert!(assemble(vec![], vec![vec![], vec![], vec![]]));
    assert!(assemble(vec![edge(0)], vec![vec![(1, 0)], vec![(0, 0)], vec![]]));
    assert!(assemble(
        vec![edge(0), edge(1)],
        vec![vec![(1, 1), (2, 0)], vec![(0, 1)], vec![(0, 0)]],
    ));
}

#[test]
fn parts_that_do_not_fit_are_refused() {
    // Too few lists, or too few weights inside nodes.
    assert!(Graph::<u8, u8>::from_parts(vec![7], vec![], vec![vec![]], vec![], single(0.0)).is_none());
    assert!(!assemble(vec![], vec![vec![], vec![]]));
    // A neighbour that is no node, a loop, an edge that is none.
    assert!(!assemble(vec![edge(0)], vec![vec![(3, 0)], vec![], vec![]]));
    assert!(!assemble(vec![edge(0)], vec![vec![(0, 0)], vec![], vec![]]));
    assert!(!assemble(vec![edge(0)], vec![vec![(1, 1)], vec![(0, 1)], vec![]]));
    // A list out of order.
    assert!(!assemble(
        vec![edge(0), edge(1)],
        vec![vec![(2, 0), (1, 1)], vec![(0, 1)], vec![(0, 0)]],
    ));
    // Lists that do not agree.
    assert!(!assemble(vec![edge(0)], vec![vec![(1, 0)], vec![], vec![]]));
    assert!(!assemble(vec![edge(0), edge(1)], vec![vec![(1, 0)], vec![(0, 1)], vec![]]));
    // One edge for two pairs.
    assert!(!assemble(
        vec![edge(0)],
        vec![vec![(1, 0), (2, 0)], vec![(0, 0)], vec![(0, 0)]],
    ));
    // An edge between no nodes, and one with another number.
    assert!(!assemble(vec![edge(0), edge(1)], vec![vec![(1, 0)], vec![(0, 0)], vec![]]));
    assert!(!assemble(vec![edge(4)], vec![vec![(1, 0)], vec![(0, 0)], vec![]]));
}
