use fa_leiden_cd::compress::{compress_l1, compress_ln};
use fa_leiden_cd::{Binary32, Community, CommunityAssignments, Graph, LocalMove, NodeSet};
use std::cell::RefCell;
use std::collections::BTreeSet;

fn single(x: f32) -> Binary32 {
    Binary32::from_bits(x.to_bits())
}

fn graph(nodes: usize, edges: &[(usize, usize, f32)]) -> Graph<usize, ()> {
    let mut g = Graph::new();
    for i in 0..nodes {
        g.add_node(i);
    }
    for &(a, b, weight) in edges {
        g.add_edge(a, b, (), single(weight));
    }
    g
}

fn assign(labels: &[u32]) -> CommunityAssignments {
    let mut assignments = CommunityAssignments::new();
    for (node, &label) in labels.iter().enumerate() {
        assignments.insert(node, label);
    }
    assignments
}

fn set(nodes: &[usize]) -> NodeSet {
    let mut set = NodeSet::new();
    for &node in nodes {
        set.insert(node);
    }
    set
}

fn plain(sets: &[NodeSet]) -> BTreeSet<Vec<usize>> {
    sets.iter()
        .map(|set| {
            let mut members = set.members();
            members.sort();
            members
        })
        .collect()
}

fn nodes_of(community: &Community) -> Vec<usize> {
    let found = RefCell::new(Vec::new());
    community.collect_nodes(&|node| found.borrow_mut().push(node));
    let mut found = found.into_inner();
    found.sort();
    found
}

/// Modularity in the processor's arithmetic, with the same order of operations.
fn modularity(nodes: usize, edges: &[(usize, usize, f32)], labels: &[u32]) -> f32 {
    let weight = |a: usize, b: usize| {
        edges.iter().find(|e| (e.0, e.1) == (a, b) || (e.0, e.1) == (b, a)).map(|e| e.2)
    };
    let m = edges.iter().fold(0.0f32, |sum, e| sum + e.2);
    let degree = |a: usize| (0..nodes).filter_map(|b| weight(a, b)).fold(0.0f32, |sum, w| sum + w);
    let mut q = 0.0f32;
    for i in 0..nodes {
        for j in i + 1..nodes {
            if labels[i] == labels[j] {
                q += match weight(i, j) {
                    Some(w) => w - (degree(i) * degree(j)) / (m + m),
                    None => -degree(i) * degree(j) / (m + m),
                };
            }
        }
    }
    q / m
}

const EDGES: [(usize, usize, f32); 7] = [
    (0, 1, 0.3),
    (0, 2, 1.7),
    (1, 2, 0.9),
    (2, 3, 0.1),
    (3, 4, 2.3),
    (3, 5, 0.7),
    (4, 5, 1.1),
];

#[test]
fn tables_hold_what_was_put_in() {
    let mut assignments = CommunityAssignments::default();
    assert_eq!(assignments.get(3), None);
    assert_eq!(assignments.insert(3, 7), None);
    assert_eq!(assignments.insert(3, 8), Some(7));
    assert_eq!(assignments.insert(1, 0), None);
    assert_eq!(assignments.get(3), Some(8));
    let mut entries = assignments.entries();
    entries.sort();
    assert_eq!(entries, vec![(1, 0), (3, 8)]);
}

#[test]
fn sets_hold_their_members_once() {
    let mut nodes = NodeSet::default();
    assert!(nodes.insert(4));
    assert!(nodes.insert(2));
    assert!(!nodes.insert(4));
    assert_eq!(nodes.len(), 2);
    assert!(nodes.contains(4) && !nodes.contains(3));
    let mut members = nodes.members();
    members.sort();
    assert_eq!(members, vec![2, 4]);
}

#[test]
fn initial_communities_are_single_nodes() {
    let mut entries = graph(3, &[]).initial_community().entries();
    entries.sort();
    assert_eq!(entries, vec![(0, 0), (1, 1), (2, 2)]);
    assert_eq!(graph(0, &[]).initial_community().entries(), vec![]);
}

#[test]
fn collecting_visits_every_node() {
    let inner = Community::LNCommunity(vec![
        Community::L1Community(set(&[5, 1])),
        Community::L1Community(set(&[3])),
    ]);
    let outer = Community::LNCommunity(vec![inner, Community::L1Community(set(&[9]))]);
    assert_eq!(nodes_of(&outer), vec![1, 3, 5, 9]);
    assert_eq!(nodes_of(&Community::LNCommunity(vec![])), vec![]);
}

#[test]
fn modularity_is_exact() {
    let g = graph(6, &EDGES);
    for labels in [[0, 0, 0, 1, 1, 1], [0, 0, 1, 1, 2, 2], [5, 5, 5, 5, 5, 5], [0, 1, 0, 1, 0, 1]] {
        let q = g.compute_modularity(&assign(&labels));
        assert_eq!(q.to_bits(), modularity(6, &EDGES, &labels).to_bits());
    }
}

#[test]
fn modularity_after_a_move() {
    let g = graph(6, &EDGES);
    let labels = assign(&[0, 0, 0, 1, 1, 1]);
    let moved = assign(&[0, 0, 1, 1, 1, 1]);
    let q = g.compute_modularity_with_local_move(&labels, LocalMove { node: 2, community: 1 });
    assert_eq!(q.to_bits(), g.compute_modularity(&moved).to_bits());
    assert!(q.to_bits() != g.compute_modularity(&labels).to_bits());
}

#[test]
fn labels_are_irrelevant_to_modularity() {
    let g = graph(6, &EDGES);
    let first = g.compute_modularity(&assign(&[0, 0, 0, 1, 1, 1]));
    let second = g.compute_modularity(&assign(&[9, 9, 9, 4, 4, 4]));
    assert_eq!(first.to_bits(), second.to_bits());
}

#[test]
fn nodes_alone_have_no_modularity() {
    let g = graph(6, &EDGES);
    assert_eq!(g.compute_modularity(&g.initial_community()).to_bits(), 0);
    // Without edges there is no modularity.
    let g = graph(2, &[]);
    assert_eq!(g.compute_modularity(&g.initial_community()).to_bits(), 0x7fc0_0000);
}

#[test]
fn weighted_degrees_are_sums() {
    let degrees: Vec<f32> = graph(6, &EDGES)
        .weighted_degrees()
        .into_iter()
        .map(|degree| f32::from_bits(degree.to_bits()))
        .collect();
    assert_eq!(degrees, vec![0.3 + 1.7, 0.3 + 0.9, 1.7 + 0.9 + 0.1, 0.1 + 2.3 + 0.7, 2.3 + 1.1, 0.7 + 1.1]);
}

#[test]
fn best_move_goes_to_the_best_neighbour() {
    let g = graph(6, &EDGES);
    let degrees = g.weighted_degrees();
    let assignments = g.initial_community();
    let sums = g.sum_communities(&assignments, &degrees);
    let choice = g.fast_local_move(0, &assignments, &degrees, &sums);
    assert_eq!(choice.map(|m| (m.node, m.community)), Some((0, 2)));
    let choice = g.fast_local_move(4, &assignments, &degrees, &sums);
    assert_eq!(choice.map(|m| (m.node, m.community)), Some((4, 3)));
}

#[test]
fn equally_good_moves_are_as_good_as_each_other() {
    // The middle of a chain of three may go either way.
    let g = graph(3, &[(0, 1, 1.0), (1, 2, 1.0)]);
    let degrees = g.weighted_degrees();
    let assignments = g.initial_community();
    let sums = g.sum_communities(&assignments, &degrees);
    for _ in 0..10 {
        match g.fast_local_move(1, &assignments, &degrees, &sums) {
            Some(choice) => assert!(choice.community == 0 || choice.community == 2),
            None => panic!("either move gains something"),
        }
    }
}

#[test]
fn no_move_where_none_improves() {
    let g = graph(6, &EDGES);
    let degrees = g.weighted_degrees();
    let assignments = assign(&[0, 0, 0, 1, 1, 1]);
    let sums = g.sum_communities(&assignments, &degrees);
    for node in 0..6 {
        assert!(g.fast_local_move(node, &assignments, &degrees, &sums).is_none());
    }
    // A node without neighbours has nowhere to go.
    let g = graph(3, &[(0, 1, 1.0)]);
    let degrees = g.weighted_degrees();
    let assignments = g.initial_community();
    let sums = g.sum_communities(&assignments, &degrees);
    assert!(g.fast_local_move(2, &assignments, &degrees, &sums).is_none());
}

#[test]
fn refining_splits_what_is_not_connected() {
    let g = graph(7, &[(0, 1, 1.0), (2, 3, 1.0), (3, 4, 1.0), (1, 5, 1.0)]);
    let found = g.refine(&assign(&[0, 0, 0, 0, 0, 3, 3]));
    let expected: BTreeSet<Vec<usize>> = [vec![0, 1], vec![2, 3, 4], vec![5], vec![6]].into();
    assert_eq!(plain(&found), expected);
}

#[test]
fn refining_keeps_what_is_connected() {
    let g = graph(6, &EDGES);
    let found = g.refine(&assign(&[4, 4, 4, 2, 2, 2]));
    let expected: BTreeSet<Vec<usize>> = [vec![0, 1, 2], vec![3, 4, 5]].into();
    assert_eq!(plain(&found), expected);
}

#[test]
fn refining_finds_every_component() {
    let pairs = graph(6, &[(0, 1, 1.0), (2, 3, 1.0), (4, 5, 1.0)]);
    let expected: BTreeSet<Vec<usize>> = [vec![0, 1], vec![2, 3], vec![4, 5]].into();
    assert_eq!(plain(&pairs.refine(&assign(&[0; 6]))), expected);
    let alone = graph(3, &[]);
    let expected: BTreeSet<Vec<usize>> = [vec![0], vec![1], vec![2]].into();
    assert_eq!(plain(&alone.refine(&assign(&[0, 0, 0]))), expected);
}

#[test]
fn refining_takes_partial_assignments() {
    let g = graph(6, &EDGES);
    assert!(g.refine(&CommunityAssignments::new()).is_empty());
    // Without node 2 its neighbours are joined only by their own edge.
    let mut assignments = CommunityAssignments::new();
    for (node, label) in [(0, 7), (1, 7), (3, 7), (5, 9)] {
        assignments.insert(node, label);
    }
    let expected: BTreeSet<Vec<usize>> = [vec![0, 1], vec![3], vec![5]].into();
    assert_eq!(plain(&g.refine(&assignments)), expected);
}

#[test]
fn moves_need_labels_only_around_the_node() {
    let g = graph(4, &[(0, 1, 1.0), (2, 3, 1.0)]);
    let degrees = g.weighted_degrees();
    let sums = g.sum_communities(&g.initial_community(), &degrees);
    let mut assignments = CommunityAssignments::new();
    assignments.insert(0, 5);
    assignments.insert(1, 5);
    assert!(g.fast_local_move(0, &assignments, &degrees, &sums).is_none());
    assignments.insert(1, 1);
    let choice = g.fast_local_move(0, &assignments, &degrees, &sums);
    assert_eq!(choice.map(|m| (m.node, m.community)), Some((0, 1)));
}

#[test]
fn chosen_moves_raise_modularity_most() {
    let g = graph(6, &EDGES);
    let degrees = g.weighted_degrees();
    for labels in [[0, 1, 2, 3, 4, 5], [0, 0, 1, 1, 2, 2], [0, 1, 0, 1, 0, 1]] {
        let assignments = assign(&labels);
        let sums = g.sum_communities(&assignments, &degrees);
        let q = |labels: &[u32]| modularity(6, &EDGES, labels);
        for node in 0..6 {
            let mut best = q(&labels);
            for neighbor in 0..6 {
                if g.try_get_edge_between(node, neighbor).is_some() {
                    let mut moved = labels;
                    moved[node] = labels[neighbor];
                    best = best.max(q(&moved));
                }
            }
            let mut moved = labels;
            if let Some(choice) = g.fast_local_move(node, &assignments, &degrees, &sums) {
                moved[node] = choice.community;
                assert!(q(&moved) > q(&labels));
            }
            assert!((q(&moved) - best).abs() < 1e-6);
        }
    }
}

#[test]
fn compressing_nodes() {
    let g = graph(6, &[(0, 1, 1.0), (1, 2, 2.0), (0, 3, 4.0), (2, 4, 8.0), (4, 5, 16.0)]);
    let made = compress_l1(&g, vec![set(&[0, 1, 2]), set(&[3, 4]), set(&[5])]);
    let members: Vec<Vec<usize>> = made.node_data_slice().iter().map(nodes_of).collect();
    assert_eq!(members, vec![vec![0, 1, 2], vec![3, 4], vec![5]]);
    let weight = |a: usize, b: usize| made.try_get_edge_between(a, b).map(|e| e.weight.to_bits());
    assert_eq!(weight(0, 1), Some(12.0f32.to_bits()));
    assert_eq!(weight(1, 2), Some(16.0f32.to_bits()));
    assert_eq!(weight(0, 2), None);
    // The weight inside communities is carried along.
    let (_, _, _, inner, total) = made.into_parts();
    let inner: Vec<f32> = inner.into_iter().map(|w| f32::from_bits(w.to_bits())).collect();
    assert_eq!(inner, vec![3.0, 0.0, 0.0]);
    assert_eq!(total.to_bits(), 31.0f32.to_bits());
}

#[test]
fn compressing_communities() {
    let mut g: Graph<Community, u8> = Graph::new();
    for nodes in [[0, 1].as_slice(), [2].as_slice(), [3, 4].as_slice()] {
        g.add_node(Community::L1Community(set(nodes)));
    }
    g.add_edge(0, 1, 0, single(1.0));
    g.add_edge(1, 2, 0, single(2.0));
    let made = compress_ln(g, vec![set(&[1]), set(&[0, 2])]);
    assert_eq!(made.count_nodes(), 2);
    // A community that stays alone stays as it is.
    assert!(matches!(&made.node_data_slice()[0], Community::L1Community(nodes) if nodes.contains(2)));
    match &made.node_data_slice()[1] {
        Community::LNCommunity(inner) => assert_eq!(inner.len(), 2),
        Community::L1Community(_) => panic!("two communities make one of a higher level"),
    }
    assert_eq!(nodes_of(&made.node_data_slice()[1]), vec![0, 1, 3, 4]);
    let weight = made.try_get_edge_between(1, 0).map(|e| e.weight.to_bits());
    assert_eq!(weight, Some(3.0f32.to_bits()));
}

#[test]
fn compressing_twice_carries_all_weight() {
    let g = graph(6, &EDGES);
    let pairs = compress_l1(&g, vec![set(&[0, 1]), set(&[2, 3]), set(&[4, 5])]);
    let halves = compress_ln(pairs, vec![set(&[0, 1]), set(&[2])]);
    let degrees: Vec<f32> =
        halves.weighted_degrees().into_iter().map(|w| f32::from_bits(w.to_bits())).collect();
    // The degrees of the nodes 0 to 3, and of 4 and 5.
    let expected = [2.0 + 1.2 + 2.7 + 3.1, 3.4 + 1.8];
    for (found, expected) in degrees.iter().zip(expected) {
        assert!((found - expected).abs() < 1e-5, "{} {}", found, expected);
    }
    let total = f32::from_bits(halves.into_parts().4.to_bits());
    assert!((total - 7.1).abs() < 1e-5, "{}", total);
}

#[test]
fn levels_share_modularity() {
    let g = graph(6, &EDGES);
    let made = compress_l1(&g, vec![set(&[0, 2]), set(&[1]), set(&[3, 4]), set(&[5])]);
    let lift = |labels: [u32; 4]| assign(&[labels[0], labels[1], labels[0], labels[2], labels[2], labels[3]]);
    let number = |q: Binary32| f32::from_bits(q.to_bits());
    let start = [0, 1, 2, 3];
    for labels in [[0, 0, 2, 3], [0, 1, 2, 2], [0, 0, 1, 1], [0, 1, 0, 1], [0, 0, 0, 0]] {
        let above = number(made.compute_modularity(&assign(&labels)))
            - number(made.compute_modularity(&assign(&start)));
        let below = number(g.compute_modularity(&lift(labels)))
            - number(g.compute_modularity(&lift(start)));
        assert!((above - below).abs() < 1e-5, "{} {}", above, below);
    }
}

#[test]
fn degrees_add_up_to_twice_the_total() {
    let g = graph(6, &[(0, 1, 3.0), (1, 2, 5.0), (0, 5, 4.0), (3, 4, 1.0)]);
    let sum = |g: &Graph<Community, ()>| -> f32 {
        g.weighted_degrees().into_iter().map(|w| f32::from_bits(w.to_bits())).sum()
    };
    let made = compress_l1(&g, vec![set(&[0, 1, 5]), set(&[2, 3]), set(&[4])]);
    assert_eq!(sum(&made), 26.0);
    assert_eq!(made.into_parts().4.to_bits(), 13.0f32.to_bits());
}

#[test]
fn every_node_is_reported_once() {
    let mut g: Graph<Community, ()> = Graph::new();
    for nodes in [[0, 4].as_slice(), [2].as_slice(), [3].as_slice(), [1].as_slice()] {
        g.add_node(Community::L1Community(set(nodes)));
    }
    let made = compress_ln(g, vec![set(&[0, 3]), set(&[1, 2])]);
    let mut reported: Vec<usize> = made.node_data_slice().iter().flat_map(nodes_of).collect();
    reported.sort();
    assert_eq!(reported, vec![0, 1, 2, 3, 4]);
}

#[test]
fn walking_goes_through_one_part_after_the_other() {
    let inner = Community::LNCommunity(vec![
        Community::L1Community(set(&[5])),
        Community::L1Community(set(&[2])),
    ]);
    let community = Community::LNCommunity(vec![
        Community::L1Community(set(&[3, 1])),
        inner,
        Community::L1Community(set(&[3])),
    ]);
    let mut walk = community.walk();
    let found = RefCell::new(Vec::new());
    community.collect_nodes(&|node| found.borrow_mut().push(node));
    assert_eq!(found.into_inner(), walk);
    walk[..2].sort();
    assert_eq!(walk, vec![1, 3, 5, 2, 3]);
    assert_eq!(Community::LNCommunity(vec![]).walk(), vec![]);
}

#[test]
fn no_node_is_lost_or_doubled() {
    let g = graph(6, &EDGES);
    let level = compress_l1(&g, vec![set(&[0]), set(&[1, 2]), set(&[3, 4]), set(&[5])]);
    let top = compress_ln(level, vec![set(&[0, 3]), set(&[1, 2])]);
    let mut all: Vec<usize> = top.node_data_slice().iter().flat_map(|c| c.walk()).collect();
    all.sort();
    assert_eq!(all, vec![0, 1, 2, 3, 4, 5]);
}

/// Four nodes in a ring. All that is computed with it is exact.
const RING: [(usize, usize, f32); 4] = [(0, 1, 1.0), (1, 2, 1.0), (2, 3, 1.0), (3, 0, 1.0)];

#[test]
fn gains_are_the_change_of_modularity() {
    let g = graph(4, &RING);
    let assignments = assign(&[0, 1, 1, 2]);
    let value = |q: Binary32| f32::from_bits(q.to_bits());
    assert_eq!(value(g.compute_modularity(&assignments)), 0.125);
    let degrees = g.weighted_degrees();
    let sums = g.sum_communities(&assignments, &degrees);
    // Joining node 3 gains 1/4 - 2 * 2 / 32, joining nodes 1 and 2 gains 1/4 - 2 * 4 / 32.
    let choice = g.fast_local_move(0, &assignments, &degrees, &sums).unwrap();
    assert_eq!((choice.node, choice.community), (0, 2));
    assert_eq!(value(g.compute_modularity_with_local_move(&assignments, choice)), 0.25);
    let other = LocalMove { node: 0, community: 1 };
    assert_eq!(value(g.compute_modularity_with_local_move(&assignments, other)), 0.125);
    // With both pairs together, no move gains anything.
    let assignments = assign(&[2, 1, 1, 2]);
    let sums = g.sum_communities(&assignments, &degrees);
    for node in 0..4 {
        assert!(g.fast_local_move(node, &assignments, &degrees, &sums).is_none());
    }
}

#[test]
fn one_community_has_the_squares_of_the_degrees() {
    let value = |q: Binary32| f32::from_bits(q.to_bits());
    // 4 * 2^2 over 4 * 4^2.
    assert_eq!(value(graph(4, &RING).compute_modularity(&assign(&[7, 7, 7, 7]))), 0.25);
    // 1 + 1 over 4.
    assert_eq!(value(graph(2, &[(0, 1, 1.0)]).compute_modularity(&assign(&[0, 0]))), 0.5);
}

#[test]
fn modularity_lies_between_minus_one_and_one() {
    let value = |q: Binary32| f32::from_bits(q.to_bits());
    // Only nodes that are not joined are together.
    assert_eq!(value(graph(4, &RING).compute_modularity(&assign(&[0, 1, 0, 1]))), -0.25);
    for mask in 0..64u32 {
        let labels: Vec<u32> = (0..6).map(|node| (mask >> node) & 1).collect();
        let q = value(graph(6, &EDGES).compute_modularity(&assign(&labels)));
        assert!((-1.0..=1.0).contains(&q));
    }
}
