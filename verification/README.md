# fa-leiden-cd

Community detection on weighted graphs with the Leiden algorithm, verified with Verus.

```rust
use fa_leiden_cd::{Binary32, Graph, TrivialModularityOptimizer};

let weight = |x: f32| Binary32::from_bits(x.to_bits());
let mut g = Graph::new();
let (a, b) = (g.add_node("a"), g.add_node("b"));
g.add_edge(a, b, (), weight(0.5));

let mut optimizer = TrivialModularityOptimizer { parallel_scale: 128, tol: weight(1e-11) };
let top = g.leiden(Some(100), &mut optimizer);
for community in top.node_data_slice() {
    community.collect_nodes(&|node| println!("{}", g.node_data_slice()[node]));
}
```

## Layout

- `src/binary32.rs`: binary32 arithmetic on bit patterns. Weights and modularity are
  binary32 numbers, and every result that is a number is the one that IEEE 754 gives.
- `src/graph.rs`, `src/graph_laws.rs`, `src/parts.rs`: graphs, what holds as nodes and
  edges are added, and taking graphs apart.
- `src/tables.rs`, `src/batch.rs`: the hash tables and the concurrent vector, with the
  contracts of the outside crates that they come from.
- `src/modularity.rs`, `src/moves.rs`, `src/optimizer.rs`, `src/optimize.rs`: modularity,
  the best move of a node, and optimization by moves, one by one or in parallel.
- `src/exact.rs`, `src/exact_laws.rs`: modularity without rounding, and how moves raise it.
- `src/exact_moves.rs`, `src/exact_runs.rs`, `src/exact_modularity.rs`, `src/exact_bounds.rs`:
  where no operation rounds, what is computed is what exact arithmetic gives, from the gain
  of a move to whole optimizations, and modularity lies between minus one and one.
- `src/exact_carry.rs`, `src/exact_levels.rs`, `src/sums.rs`: the weight that a level carries
  over from the one below, and why moving communities changes modularity alike on both.
- `src/components.rs`: while nodes move, communities stay within the components of the graph.
- `src/refine.rs`, `src/refine_laws.rs`: splitting communities into their components.
- `src/community.rs`, `src/compress.rs`, `src/compress_laws.rs`, `src/tally.rs`: graphs of
  communities, and walks through them.
- `src/leiden.rs`, `src/leiden_laws.rs`, `src/level_weights.rs`: the levels of communities,
  what holds of each of them, and what communities weigh on each.
- `app/`: the same operations on `f32`, and copies of the types for serde.

## Weight inside communities

The weight of the edges inside a community is carried along to the next level, so that it
counts in degrees, in the total weight and in modularity there. Results differ from those of
a graph of communities that keeps only the edges between them: without the weight inside,
moving in turn would go on until every connected graph with positive weights is one community.

## What is proved

Every function states exactly what it computes: the modularity of an assignment to the
last bit, the move of a node that gains most, the components that a community is split into.
`Graph::leiden` hands back communities that are connected and that every node is in once;
its contract gives the levels it went through, and how the optimizer decided. Public proof functions named
`law_*` state what holds across calls.

Where the order of a hash table or of threads decides, contracts hold for every order.
Optimization stops after 2^64 - 1 rounds at the latest.
