use fa_leiden_cd::leiden::{leiden_l1, leiden_ln};
use fa_leiden_cd::{
    Binary32, Community, CommunityAssignments, Graph, ModularityOptimizer, TrivialModularityOptimizer,
};
use std::cell::{Cell, RefCell};
use std::collections::BTreeSet;

fn single(x: f32) -> Binary32 {
    Binary32::from_bits(x.to_bits())
}

fn graph(nodes: usize, edges: &[(usize, usize, f32)]) -> Graph<usize, ()> {
    let mut g = Graph::new();
    for i in 0..nodes {
        g.add_node(i);
    }
    for &(a, b, weight) in edges {
        g.add_edge(a, b, (), single(weight));
    }
    g
}

fn optimizer(parallel_scale: usize) -> TrivialModularityOptimizer {
    TrivialModularityOptimizer { parallel_scale, tol: single(1e-9) }
}

fn nodes_of(community: &Community) -> Vec<usize> {
    let found = RefCell::new(Vec::new());
    community.collect_nodes(&|node| found.borrow_mut().push(node));
    let mut found = found.into_inner();
    found.sort();
    found
}

fn communities(top: &Graph<Community, ()>) -> BTreeSet<Vec<usize>> {
    top.node_data_slice().iter().map(nodes_of).collect()
}

/// Whether edges between members join all of them.
fn connected(members: &[usize], edges: &[(usize, usize, f32)]) -> bool {
    let mut seen = vec![members[0]];
    let mut next = 0;
    while next < seen.len() {
        for &(a, b, _) in edges {
            for (from, to) in [(a, b), (b, a)] {
                if from == seen[next] && members.contains(&to) && !seen.contains(&to) {
                    seen.push(to);
                }
            }
        }
        next += 1;
    }
    seen.len() == members.len()
}

fn random_edges(nodes: usize, count: usize, seed: u64) -> Vec<(usize, usize, f32)> {
    let mut state = seed;
    let mut next = || {
        state = state.wrapping_mul(6364136223846793005).wrapping_add(1442695040888963407);
        (state >> 33) as usize
    };
    (0..count)
        .map(|_| (next() % nodes, next() % nodes, (next() % 100) as f32 / 10.0 + 0.1))
        .filter(|&(a, b, _)| a != b)
        .collect()
}

fn two_cliques() -> Vec<(usize, usize, f32)> {
    let mut edges = vec![(3, 4, 0.5)];
    for base in [0, 4] {
        for i in 0..4 {
            for j in i + 1..4 {
                edges.push((base + i, base + j, 1.0));
            }
        }
    }
    edges
}

/// An optimizer that counts how often it is asked.
struct Counting {
    threshold: usize,
    verdict: bool,
    asked: Vec<(u32, u32)>,
    thresholds: Cell<usize>,
}

impl Counting {
    fn new(threshold: usize, verdict: bool) -> Self {
        Counting { threshold, verdict, asked: Vec::new(), thresholds: Cell::new(0) }
    }
}

impl ModularityOptimizer for Counting {
    fn is_converged(&mut self, previous: Binary32, current: Binary32) -> bool {
        self.asked.push((previous.to_bits(), current.to_bits()));
        self.verdict
    }

    fn get_parallel_threshold(&self) -> usize {
        self.thresholds.set(self.thresholds.get() + 1);
        self.threshold
    }
}

#[test]
fn trivial_optimizer_stops_below_its_tolerance() {
    let mut optimizer = TrivialModularityOptimizer { parallel_scale: 5, tol: single(0.25) };
    assert!(optimizer.is_converged(single(0.5), single(0.5)));
    assert!(optimizer.is_converged(single(0.5), single(0.625)));
    assert!(!optimizer.is_converged(single(0.5), single(0.75)));
    assert!(optimizer.is_converged(single(0.5), single(0.0)));
    assert!(!optimizer.is_converged(single(0.5), single(f32::NAN)));
    assert_eq!(optimizer.get_parallel_threshold(), 5);
}

#[test]
fn optimizing_in_turn_settles() {
    let g = graph(8, &two_cliques());
    let mut assignments = g.initial_community();
    g.optimize_modularity(&mut assignments, &mut optimizer(100));
    let labels: Vec<u32> = (0..8).filter_map(|node| assignments.get(node)).collect();
    assert!(labels[..4].iter().all(|&label| label == labels[0]));
    assert!(labels[4..].iter().all(|&label| label == labels[4]));
    assert!(labels[0] != labels[4]);
    let degrees = g.weighted_degrees();
    let sums = g.sum_communities(&assignments, &degrees);
    for node in 0..8 {
        assert!(g.fast_local_move(node, &assignments, &degrees, &sums).is_none());
    }
}

#[test]
fn optimizing_in_turn_raises_modularity() {
    for seed in 40..50 {
        let g = graph(25, &random_edges(25, 50, seed));
        let mut assignments = g.initial_community();
        let before = g.compute_modularity(&assignments);
        g.optimize_modularity(&mut assignments, &mut optimizer(100));
        assert!(before.less_than(g.compute_modularity(&assignments)));
    }
}

#[test]
fn moves_are_made_at_once_only_above_the_threshold() {
    let g = graph(8, &two_cliques());
    for (threshold, rounds) in [(9, 0), (8, 0), (7, 1), (0, 1)] {
        let mut counting = Counting::new(threshold, true);
        let mut assignments = g.initial_community();
        g.optimize_modularity(&mut assignments, &mut counting);
        assert_eq!(counting.asked.len(), rounds);
        assert_eq!(counting.thresholds.get(), 1);
    }
}

#[test]
fn rounds_are_judged_by_their_modularity() {
    let g = graph(8, &two_cliques());
    let mut counting = Counting::new(0, true);
    let mut assignments = g.initial_community();
    let before = g.compute_modularity(&assignments);
    g.optimize_modularity(&mut assignments, &mut counting);
    let after = g.compute_modularity(&assignments);
    assert_eq!(counting.asked, vec![(before.to_bits(), after.to_bits())]);
}

#[test]
fn parallel_moves_are_made_from_one_state() {
    // Two nodes that both want to join the other change places.
    let g = graph(2, &[(0, 1, 1.0)]);
    let mut counting = Counting::new(0, true);
    let mut assignments = g.initial_community();
    g.optimize_modularity(&mut assignments, &mut counting);
    assert_eq!((assignments.get(0), assignments.get(1)), (Some(1), Some(0)));
    assert_eq!(counting.asked.len(), 1);
}

#[test]
fn rounds_end_where_no_node_moves() {
    // Everything is settled from the start, so nothing is judged.
    let g = graph(4, &[]);
    let mut counting = Counting::new(0, false);
    let mut assignments = g.initial_community();
    g.optimize_modularity(&mut assignments, &mut counting);
    assert!(counting.asked.is_empty());
    assert_eq!(assignments.get(2), Some(2));
}

#[test]
fn empty_graph_has_no_communities() {
    let top = graph(0, &[]).leiden(None, &mut optimizer(10));
    assert_eq!(top.count_nodes(), 0);
}

#[test]
fn nodes_without_edges_stay_alone() {
    for scale in [0, 10] {
        let top = graph(3, &[]).leiden(None, &mut optimizer(scale));
        let expected: BTreeSet<Vec<usize>> = [vec![0], vec![1], vec![2]].into();
        assert_eq!(communities(&top), expected);
    }
}

#[test]
fn cliques_are_found_first() {
    let expected: BTreeSet<Vec<usize>> = [vec![0, 1, 2, 3], vec![4, 5, 6, 7]].into();
    let level = leiden_l1(&graph(8, &two_cliques()), &mut optimizer(100));
    assert_eq!(communities(&level), expected);
    let weight = level.try_get_edge_between(0, 1).map(|e| e.weight.to_bits());
    assert_eq!(weight, Some(0.5f32.to_bits()));
}

#[test]
fn weight_within_communities_counts_above() {
    // On the second level the weight inside the cliques keeps them apart.
    let expected: BTreeSet<Vec<usize>> = [vec![0, 1, 2, 3], vec![4, 5, 6, 7]].into();
    let top = graph(8, &two_cliques()).leiden(None, &mut optimizer(100));
    assert_eq!(communities(&top), expected);
}

#[test]
fn separate_cliques_are_found() {
    let edges: Vec<(usize, usize, f32)> = two_cliques().into_iter().skip(1).collect();
    let expected: BTreeSet<Vec<usize>> = [vec![0, 1, 2, 3], vec![4, 5, 6, 7]].into();
    let top = graph(8, &edges).leiden(None, &mut optimizer(100));
    assert_eq!(communities(&top), expected);
    assert!(top.try_get_edge_between(0, 1).is_none());
}

#[test]
fn every_node_is_in_one_community() {
    for seed in 0..20 {
        let edges = random_edges(40, 60, seed);
        for scale in [0, 20, 100] {
            let g = graph(40, &edges);
            let top = g.leiden(Some(50), &mut optimizer(scale));
            let mut all: Vec<usize> = top.node_data_slice().iter().flat_map(nodes_of).collect();
            all.sort();
            assert_eq!(all, (0..40).collect::<Vec<usize>>());
        }
    }
}

#[test]
fn communities_are_connected() {
    for seed in 100..115 {
        let edges = random_edges(30, 25 + seed as usize % 30, seed);
        for scale in [0, 100] {
            let g = graph(30, &edges);
            let mut optimizer = optimizer(scale);
            let mut level = leiden_l1(&g, &mut optimizer);
            for _ in 0..4 {
                for community in communities(&level) {
                    assert!(connected(&community, &edges));
                }
                level = leiden_ln(level, &mut optimizer);
            }
        }
    }
}

#[test]
fn labels_stay_within_components() {
    let edges = [(0, 1, 1.0), (1, 2, 2.0), (3, 4, 1.0), (4, 5, 0.5), (3, 5, 1.0)];
    let g = graph(7, &edges);
    for scale in [0, 100] {
        let mut assignments = g.initial_community();
        g.optimize_modularity(&mut assignments, &mut optimizer(scale));
        for node in 0..7 {
            let home = |node: usize| if node < 3 { 0 } else if node < 6 { 1 } else { 2 };
            assert_eq!(assignments.get(node).map(|label| home(label as usize)), Some(home(node)));
        }
    }
}

#[test]
fn neighbouring_communities_share_an_edge() {
    let edges = random_edges(30, 60, 7);
    let top = graph(30, &edges).leiden(None, &mut optimizer(100));
    let found: Vec<Vec<usize>> = top.node_data_slice().iter().map(nodes_of).collect();
    for x in 0..found.len() {
        for y in 0..found.len() {
            let crossing = edges.iter().any(|&(a, b, _)| {
                x != y
                    && ((found[x].contains(&a) && found[y].contains(&b))
                        || (found[x].contains(&b) && found[y].contains(&a)))
            });
            assert_eq!(top.try_get_edge_between(x, y).is_some(), crossing);
        }
    }
}

#[test]
fn levels_nest() {
    let edges = random_edges(60, 80, 3);
    let mut optimizer = optimizer(100);
    let mut level = leiden_l1(&graph(60, &edges), &mut optimizer);
    loop {
        let below = communities(&level);
        level = leiden_ln(level, &mut optimizer);
        let above = communities(&level);
        for community in &below {
            let home = above.iter().filter(|c| community.iter().all(|node| c.contains(node))).count();
            assert_eq!(home, 1);
        }
        if above.len() == below.len() {
            assert_eq!(above, below);
            break;
        }
        assert!(above.len() < below.len());
    }
}

#[test]
fn limit_bounds_the_levels() {
    // A long chain takes several levels.
    let edges: Vec<(usize, usize, f32)> = (0..200).map(|i| (i, i + 1, 1.0)).collect();
    let g = graph(201, &edges);
    let levels = |max_iter: Option<usize>| {
        let mut counting = Counting::new(1000, true);
        g.leiden(max_iter, &mut counting);
        counting.thresholds.get()
    };
    assert!(levels(None) <= 203);
    assert_eq!(levels(Some(0)), 3);
    assert_eq!(levels(Some(1)), 4);
    assert!(levels(Some(100)) <= 103);
}

#[test]
fn top_level_is_a_graph() {
    let edges = random_edges(50, 90, 11);
    let top = graph(50, &edges).leiden(Some(2), &mut optimizer(100));
    let (nodes, edges, connections, inner, total) = top.into_parts();
    assert!(Graph::from_parts(nodes, edges, connections, inner, total).is_some());
}

#[test]
fn found_communities_have_a_modularity() {
    let g = graph(8, &two_cliques());
    let level = leiden_l1(&g, &mut optimizer(100));
    let mut assignments = CommunityAssignments::new();
    for (label, community) in level.node_data_slice().iter().enumerate() {
        for node in nodes_of(community) {
            assignments.insert(node, label as u32);
        }
    }
    let q = f32::from_bits(g.compute_modularity(&assignments).to_bits());
    // Each clique has 6 - (3 * 9 + 3 * 10.5) / 25, over a total weight of 12.5.
    assert!((q - 0.5856).abs() < 1e-5, "{}", q);
}

#[test]
fn communities_weigh_what_their_edges_do() {
    for seed in 200..206 {
        // Sums of whole numbers need no rounding.
        let edges: Vec<(usize, usize, f32)> =
            random_edges(60, 90, seed).into_iter().map(|(a, b, w)| (a, b, w.ceil())).collect();
        let top = graph(60, &edges).leiden(None, &mut optimizer(100));
        let found: Vec<Vec<usize>> = top.node_data_slice().iter().map(nodes_of).collect();
        let between = |x: usize, y: usize| -> f32 {
            edges
                .iter()
                .filter(|&&(a, b, _)| {
                    (found[x].contains(&a) && found[y].contains(&b))
                        || (found[x].contains(&b) && found[y].contains(&a))
                })
                .map(|edge| edge.2)
                .sum()
        };
        for x in 0..found.len() {
            for y in 0..found.len() {
                if x != y {
                    let edge = top.try_get_edge_between(x, y);
                    let weight = edge.map_or(0.0, |e| f32::from_bits(e.weight.to_bits()));
                    assert_eq!(weight, between(x, y));
                }
            }
        }
        let inside: Vec<f32> = (0..found.len()).map(|x| between(x, x)).collect();
        let (_, _, _, inner, total) = top.into_parts();
        let inner: Vec<f32> = inner.iter().map(|w| f32::from_bits(w.to_bits())).collect();
        assert_eq!(inner, inside);
        let all: f32 = edges.iter().map(|edge| edge.2).sum();
        assert_eq!(f32::from_bits(total.to_bits()), all);
    }
}
