use fa_leiden_cd::{Binary32, Graph, TrivialModularityOptimizer};
use std::cell::RefCell;
use std::collections::{HashMap, HashSet};

fn single(x: f32) -> Binary32 {
    Binary32::from_bits(x.to_bits())
}

#[test]
fn test_example() {
    let edges: &[(&'static str, &'static str, f32)] = &[
        ("Fortran", "C", 0.5),
        ("Fortran", "LISP", 0.3),
        ("Fortran", "MATLAB", 0.6),
        ("C", "C++", 0.9),
        ("C", "Go", 0.6),
        ("LISP", "ML", 0.5),
        ("LISP", "OCaml", 0.2),
        ("LISP", "Haskell", 0.2),
        ("LISP", "Ruby", 0.5),
        ("LISP", "Julia", 0.6),
        ("ML", "OCaml", 0.8),
        ("ML", "Haskell", 0.5),
        ("OCaml", "Haskell", 0.3),
        ("OCaml", "F#", 0.6),
        ("Haskell", "Julia", 0.2),
        ("C++", "Python", 0.32),
        ("C++", "Ruby", 0.2),
        ("C++", "C#", 0.5),
        ("Python", "F#", 0.2),
        ("Python", "Julia", 0.4),
        ("C#", "F#", 0.3),
    ];

    let mut nodes: HashMap<&'static str, usize> = HashMap::new();
    let mut g = Graph::new();
    for (from, to, weight) in edges.iter() {
        let from_id = *nodes.entry(from).or_insert_with(|| g.add_node(from));
        let to_id = *nodes.entry(to).or_insert_with(|| g.add_node(to));
        g.add_edge(from_id, to_id, (), single(*weight));
    }

    let mut optimizer = TrivialModularityOptimizer { parallel_scale: 128, tol: single(1e-11) };

    let hierarchy = g.leiden(Some(100), &mut optimizer);
    for (i, node) in hierarchy.node_data_slice().iter().enumerate() {
        println!("community {}:", i);
        node.collect_nodes(&|i| {
            let n = g.node_data_slice()[i];
            println!("     {}", n);
        });
    }
}

#[test]
fn test_weighted_modularity() {
    // Two 3-cliques (intra weight 10.0) connected by a single bridge (weight 1.0).
    // Total weight m = 3*10 + 3*10 + 1 = 61.
    let mut g: Graph<usize, ()> = Graph::new();
    let nodes: Vec<usize> = (0..6).map(|i| g.add_node(i)).collect();

    g.add_edge(nodes[0], nodes[1], (), single(10.0));
    g.add_edge(nodes[0], nodes[2], (), single(10.0));
    g.add_edge(nodes[1], nodes[2], (), single(10.0));
    g.add_edge(nodes[3], nodes[4], (), single(10.0));
    g.add_edge(nodes[3], nodes[5], (), single(10.0));
    g.add_edge(nodes[4], nodes[5], (), single(10.0));
    g.add_edge(nodes[2], nodes[3], (), single(1.0));

    let mut assignments = g.initial_community();
    for &n in &nodes[0..3] {
        assignments.insert(n, 0u32);
    }
    for &n in &nodes[3..6] {
        assignments.insert(n, 1u32);
    }

    let q = f32::from_bits(g.compute_modularity(&assignments).to_bits());
    assert!((q - 0.6503_f32).abs() < 0.01, "expected Q = 0.6503, got {}", q);
}

#[test]
fn test_simplest() {
    let edges = vec![
        (1, 2, 1.0),
        (1, 3, 1.0),
        (2, 3, 1.0),
        (4, 5, 1.0),
        (4, 6, 1.0),
        (5, 6, 1.0),
        (7, 8, 1.0),
        (7, 9, 1.0),
        (8, 9, 1.0),
    ];

    let mut nodes: HashMap<usize, usize> = HashMap::new();
    let mut g = Graph::new();
    for (from, to, weight) in edges.into_iter() {
        let from_id = *nodes.entry(from).or_insert_with(|| g.add_node(from));
        let to_id = *nodes.entry(to).or_insert_with(|| g.add_node(to));
        g.add_edge(from_id, to_id, (), single(weight));
    }

    let mut optimizer = TrivialModularityOptimizer { parallel_scale: 128, tol: single(1e-13) };

    let assignments = RefCell::new(g.initial_community());

    let hierarchy = g.leiden(Some(100), &mut optimizer);
    for (i, node) in hierarchy.node_data_slice().iter().enumerate() {
        println!("community {}:", i);
        let comm = i;
        node.collect_nodes(&|i| {
            assignments.borrow_mut().insert(i, comm as u32);
            let n = g.node_data_slice()[i];
            println!("     {}", n);
        });
    }

    let labels: HashSet<u32> = assignments.borrow().entries().into_iter().map(|(_, c)| c).collect();
    assert!(labels.len() == 3);

    let q = f32::from_bits(g.compute_modularity(&assignments.borrow()).to_bits());
    println!("real modularity: {}", q);
}

/// The edges of the programming languages example.
fn languages() -> (Graph<&'static str, ()>, HashMap<&'static str, usize>) {
    let edges = [
        ("Fortran", "C", 0.5),
        ("Fortran", "LISP", 0.3),
        ("Fortran", "MATLAB", 0.6),
        ("C", "C++", 0.9),
        ("C", "Go", 0.6),
        ("LISP", "ML", 0.5),
        ("LISP", "OCaml", 0.2),
        ("LISP", "Haskell", 0.2),
        ("LISP", "Ruby", 0.5),
        ("LISP", "Julia", 0.6),
        ("ML", "OCaml", 0.8),
        ("ML", "Haskell", 0.5),
        ("OCaml", "Haskell", 0.3),
        ("OCaml", "F#", 0.6),
        ("Haskell", "Julia", 0.2),
        ("C++", "Python", 0.32),
        ("C++", "Ruby", 0.2),
        ("C++", "C#", 0.5),
        ("Python", "F#", 0.2),
        ("Python", "Julia", 0.4),
        ("C#", "F#", 0.3),
    ];
    let mut nodes: HashMap<&'static str, usize> = HashMap::new();
    let mut g = Graph::new();
    for (from, to, weight) in edges {
        let from_id = *nodes.entry(from).or_insert_with(|| g.add_node(from));
        let to_id = *nodes.entry(to).or_insert_with(|| g.add_node(to));
        g.add_edge(from_id, to_id, (), single(weight));
    }
    (g, nodes)
}

#[test]
fn languages_fall_into_four_communities() {
    let (g, _) = languages();
    let mut optimizer = TrivialModularityOptimizer { parallel_scale: 128, tol: single(1e-11) };
    let top = g.leiden(Some(100), &mut optimizer);
    let mut found: Vec<Vec<&str>> = Vec::new();
    for community in top.node_data_slice() {
        let names = RefCell::new(Vec::new());
        community.collect_nodes(&|node| names.borrow_mut().push(g.node_data_slice()[node]));
        let mut names = names.into_inner();
        names.sort();
        found.push(names);
    }
    found.sort();
    assert_eq!(
        found,
        vec![
            vec!["C", "C#", "C++", "Go"],
            vec!["F#", "Haskell", "ML", "OCaml"],
            vec!["Fortran", "MATLAB"],
            vec!["Julia", "LISP", "Python", "Ruby"],
        ],
    );
}

#[test]
fn julia_does_not_rest_apart_from_lisp() {
    // As long as Julia is at most with Python, and LISP at most with Ruby, Julia gains by
    // a move.
    let (g, nodes) = languages();
    let degrees = g.weighted_degrees();
    for with_python in [false, true] {
        for with_ruby in [false, true] {
            let mut assignments = g.initial_community();
            if with_python {
                assignments.insert(nodes["Python"], nodes["Julia"] as u32);
            }
            if with_ruby {
                assignments.insert(nodes["Ruby"], nodes["LISP"] as u32);
            }
            let sums = g.sum_communities(&assignments, &degrees);
            let choice = g.fast_local_move(nodes["Julia"], &assignments, &degrees, &sums);
            assert!(choice.is_some());
        }
    }
}
