//! The total weight: what adding nodes and edges does to it, and what of it a graph of
//! communities has.

use crate::binary32::Binary32;
use crate::community::Community;
use crate::graph::GraphView;
use crate::rounding::{fits, lemma_fits_step, lemma_near_more, lemma_near_start, near, size};
use crate::sums::{only, sum};
use vstd::prelude::*;

verus! {

impl<N, E> GraphView<N, E> {
    /// The amount of the weight between `a` and the later node `b`.
    pub open spec fn later_weight(self, a: int, b: int) -> int {
        only(a < b, self.exact_weight(a as usize, b as usize))
    }

    /// The amounts of the weights between `a` and all later nodes.
    pub open spec fn later_row(self, a: int) -> int {
        sum(self.nodes.len() as int, |b: int| self.later_weight(a, b))
    }

    /// The sizes of these amounts.
    pub open spec fn later_row_size(self, a: int) -> int {
        sum(self.nodes.len() as int, |b: int| size(self.later_weight(a, b)))
    }

    /// The amount of the weight inside `a`.
    pub open spec fn inner_amount(self, a: int) -> int {
        self.inner[a].amount()
    }

    proof fn lemma_row_total(
        self,
        parts: Seq<Set<usize>>,
        g: GraphView<Community, ()>,
        i: usize,
        b: int,
        exact: int,
        whole: int,
        steps: nat,
    )
        requires
            i < self.nodes.len() <= usize::MAX,
            0 <= b <= self.nodes.len(),
            crate::refine::partitions(parts, crate::refine::numbers(self.nodes.len())),
            parts.len() <= usize::MAX,
            self.bridged_to(parts, g, i, b).total_weight.finite(),
            g.total_weight.finite() ==> near(g.total_weight.amount(), exact, whole, steps),
            size(exact) <= whole,
        ensures
            g.total_weight.finite(),
            near(
                self.bridged_to(parts, g, i, b).total_weight.amount(),
                exact + sum(b, |c: int| self.later_weight(i as int, c)),
                whole + sum(b, |c: int| size(self.later_weight(i as int, c))),
                steps + b as nat,
            ),
            size(exact + sum(b, |c: int| self.later_weight(i as int, c))) <= whole + sum(
                b,
                |c: int| size(self.later_weight(i as int, c)),
            ),
        decreases b,
    {
        let w = |c: int| self.later_weight(i as int, c);
        let z = |c: int| size(self.later_weight(i as int, c));
        if b > 0 {
            let j = (b - 1) as usize;
            let rest = self.bridged_to(parts, g, i, b - 1);
            assert(sum(b, w) == sum(b - 1, w) + w(b - 1));
            assert(sum(b, z) == sum(b - 1, z) + z(b - 1));
            if i + 1 < b && self.adjacent(i, j) {
                self.lemma_places(parts, i, j);
                let more = self.bridged_to(parts, g, i, b);
                assert(more.total_weight == rest.total_weight.added(self.weight(i, j)));
                rest.total_weight.lemma_finite_sum(self.weight(i, j));
                self.lemma_row_total(parts, g, i, b - 1, exact, whole, steps);
                rest.total_weight.lemma_near_sum(
                    exact + sum(b - 1, w),
                    whole + sum(b - 1, z),
                    steps + (b - 1) as nat,
                    self.weight(i, j),
                );
            } else {
                assert(self.bridged_to(parts, g, i, b).total_weight == rest.total_weight);
                self.lemma_row_total(parts, g, i, b - 1, exact, whole, steps);
                lemma_near_more(
                    rest.total_weight.amount(),
                    exact + sum(b - 1, w),
                    whole + sum(b - 1, z),
                    steps + (b - 1) as nat,
                    whole + sum(b - 1, z),
                    steps + b as nat,
                );
            }
        }
    }

    /// Nodes in different sets have places of different numbers.
    proof fn lemma_places(self, parts: Seq<Set<usize>>, i: usize, j: usize)
        requires
            i < self.nodes.len(),
            j < self.nodes.len(),
            crate::refine::partitions(parts, crate::refine::numbers(self.nodes.len())),
            parts.len() <= usize::MAX,
        ensures
            crate::compress::place(parts, i) != crate::compress::place(parts, j)
                ==> crate::compress::place(parts, i) as usize != crate::compress::place(
                parts,
                j,
            ) as usize,
    {
        let all = crate::refine::numbers(self.nodes.len());
        assert(all.contains(i) && all.contains(j));
        let x = choose|x: int| 0 <= x < parts.len() && (#[trigger] parts[x]).contains(i);
        let y = choose|y: int| 0 <= y < parts.len() && (#[trigger] parts[y]).contains(j);
        crate::compress::lemma_place(parts, all, x, i);
        crate::compress::lemma_place(parts, all, y, j);
    }

    proof fn lemma_total_near(self, parts: Seq<Set<usize>>, nodes: Seq<Community>, i: int)
        requires
            0 <= i <= self.nodes.len() <= usize::MAX,
            crate::refine::partitions(parts, crate::refine::numbers(self.nodes.len())),
            parts.len() <= usize::MAX,
            self.bridged_below(
                parts,
                crate::compress::nodes_alone(nodes),
                i,
            ).total_weight.finite(),
        ensures
            near(
                self.bridged_below(
                    parts,
                    crate::compress::nodes_alone(nodes),
                    i,
                ).total_weight.amount(),
                sum(i, |a: int| self.inner_amount(a)) + sum(i, |a: int| self.later_row(a)),
                sum(i, |a: int| size(self.inner_amount(a))) + sum(
                    i,
                    |a: int| self.later_row_size(a),
                ),
                (i * self.nodes.len() + i) as nat,
            ),
            size(sum(i, |a: int| self.inner_amount(a)) + sum(i, |a: int| self.later_row(a)))
                <= sum(i, |a: int| size(self.inner_amount(a))) + sum(
                i,
                |a: int| self.later_row_size(a),
            ),
        decreases i,
    {
        let n = self.nodes.len() as int;
        let start = crate::compress::nodes_alone(nodes);
        let own = |a: int| self.inner_amount(a);
        let own_sizes = |a: int| size(self.inner_amount(a));
        let rows = |a: int| self.later_row(a);
        let row_sizes = |a: int| self.later_row_size(a);
        if i == 0 {
            crate::binary32::lemma_zero_amount();
            lemma_near_start(0, 0);
        } else {
            let node = (i - 1) as usize;
            let below = self.bridged_below(parts, start, i - 1);
            let row = below.with_inner(
                crate::compress::place(parts, node) as usize,
                self.inner[node as int],
            );
            assert(0 <= (i - 1) * n && (i - 1) * n + n == i * n) by (nonlinear_arith)
                requires
                    0 < i,
                    0 <= n,
            ;
            assert(sum(i, own) == sum(i - 1, own) + own(i - 1));
            assert(sum(i, own_sizes) == sum(i - 1, own_sizes) + own_sizes(i - 1));
            assert(sum(i, rows) == sum(i - 1, rows) + rows(i - 1));
            assert(sum(i, row_sizes) == sum(i - 1, row_sizes) + row_sizes(i - 1));
            let exact = sum(i - 1, own) + sum(i - 1, rows);
            let whole = sum(i - 1, own_sizes) + sum(i - 1, row_sizes);
            let steps = ((i - 1) * n + (i - 1)) as nat;
            self.lemma_row_start_finite(parts, row, node, n);
            below.total_weight.lemma_finite_sum(self.inner[node as int]);
            self.lemma_total_near(parts, nodes, i - 1);
            below.total_weight.lemma_near_sum(exact, whole, steps, self.inner[node as int]);
            self.lemma_row_total(
                parts,
                row,
                node,
                n,
                exact + own(i - 1),
                whole + own_sizes(i - 1),
                steps + 1,
            );
        }
    }

    proof fn lemma_row_start_finite(
        self,
        parts: Seq<Set<usize>>,
        g: GraphView<Community, ()>,
        i: usize,
        b: int,
    )
        requires
            i < self.nodes.len() <= usize::MAX,
            0 <= b <= self.nodes.len(),
            crate::refine::partitions(parts, crate::refine::numbers(self.nodes.len())),
            parts.len() <= usize::MAX,
            self.bridged_to(parts, g, i, b).total_weight.finite(),
        ensures
            g.total_weight.finite(),
        decreases b,
    {
        if i + 1 < b {
            let j = (b - 1) as usize;
            let rest = self.bridged_to(parts, g, i, b - 1);
            if self.adjacent(i, j) {
                self.lemma_places(parts, i, j);
                rest.total_weight.lemma_finite_sum(self.weight(i, j));
            }
            self.lemma_row_start_finite(parts, g, i, b - 1);
        }
    }

    proof fn lemma_row_total_finite(
        self,
        parts: Seq<Set<usize>>,
        g: GraphView<Community, ()>,
        i: usize,
        b: int,
        exact: int,
        whole: int,
        steps: nat,
        all: int,
        limit: nat,
    )
        requires
            i < self.nodes.len() <= usize::MAX,
            0 <= b <= self.nodes.len(),
            crate::refine::partitions(parts, crate::refine::numbers(self.nodes.len())),
            parts.len() <= usize::MAX,
            g.total_weight.finite(),
            near(g.total_weight.amount(), exact, whole, steps),
            size(exact) <= whole,
            forall|c: usize, d: usize| #[trigger]
                self.adjacent(c, d) ==> self.weight(c, d).finite(),
            whole + sum(b, |c: int| size(self.later_weight(i as int, c))) <= all,
            steps + b <= limit,
            fits(all, limit),
        ensures
            self.bridged_to(parts, g, i, b).total_weight.finite(),
        decreases b,
    {
        let w = |c: int| self.later_weight(i as int, c);
        let z = |c: int| size(self.later_weight(i as int, c));
        if i + 1 < b {
            let j = (b - 1) as usize;
            let rest = self.bridged_to(parts, g, i, b - 1);
            assert(sum(b, z) == sum(b - 1, z) + z(b - 1));
            self.lemma_row_total_finite(parts, g, i, b - 1, exact, whole, steps, all, limit);
            if self.adjacent(i, j) {
                self.lemma_places(parts, i, j);
                self.lemma_row_total(parts, g, i, b - 1, exact, whole, steps);
                lemma_fits_step(
                    rest.total_weight.amount(),
                    exact + sum(b - 1, w),
                    whole + sum(b - 1, z),
                    steps + (b - 1) as nat,
                    self.weight(i, j).amount(),
                    all,
                    limit,
                );
                rest.total_weight.law_sum_is_finite(self.weight(i, j));
            }
        }
    }

    proof fn lemma_total_finite(
        self,
        parts: Seq<Set<usize>>,
        nodes: Seq<Community>,
        i: int,
        all: int,
        limit: nat,
    )
        requires
            0 <= i <= self.nodes.len() <= usize::MAX,
            crate::refine::partitions(parts, crate::refine::numbers(self.nodes.len())),
            parts.len() <= usize::MAX,
            forall|c: usize, d: usize| #[trigger]
                self.adjacent(c, d) ==> self.weight(c, d).finite(),
            forall|a: int| 0 <= a < self.nodes.len() ==> (#[trigger] self.inner[a]).finite(),
            sum(i, |a: int| size(self.inner_amount(a))) + sum(
                i,
                |a: int| self.later_row_size(a),
            ) <= all,
            i * self.nodes.len() + i <= limit,
            fits(all, limit),
        ensures
            self.bridged_below(
                parts,
                crate::compress::nodes_alone(nodes),
                i,
            ).total_weight.finite(),
        decreases i,
    {
        let n = self.nodes.len() as int;
        let start = crate::compress::nodes_alone(nodes);
        let own = |a: int| self.inner_amount(a);
        let own_sizes = |a: int| size(self.inner_amount(a));
        let rows = |a: int| self.later_row(a);
        let row_sizes = |a: int| self.later_row_size(a);
        if 0 < i {
            let node = (i - 1) as usize;
            let below = self.bridged_below(parts, start, i - 1);
            let row = below.with_inner(
                crate::compress::place(parts, node) as usize,
                self.inner[node as int],
            );
            assert(0 <= (i - 1) * n && (i - 1) * n + n == i * n) by (nonlinear_arith)
                requires
                    0 < i,
                    0 <= n,
            ;
            assert(sum(i, own_sizes) == sum(i - 1, own_sizes) + own_sizes(i - 1));
            assert(sum(i, row_sizes) == sum(i - 1, row_sizes) + row_sizes(i - 1));
            let exact = sum(i - 1, own) + sum(i - 1, rows);
            let whole = sum(i - 1, own_sizes) + sum(i - 1, row_sizes);
            let steps = ((i - 1) * n + (i - 1)) as nat;
            crate::finite_laws::lemma_prefix(n, n, |b: int| size(self.later_weight(i - 1, b)));
            self.lemma_total_finite(parts, nodes, i - 1, all, limit);
            self.lemma_total_near(parts, nodes, i - 1);
            assert(self.inner[i - 1].finite());
            lemma_fits_step(
                below.total_weight.amount(),
                exact,
                whole,
                steps,
                self.inner[i - 1].amount(),
                all,
                limit,
            );
            below.total_weight.law_sum_is_finite(self.inner[i - 1]);
            below.total_weight.lemma_near_sum(exact, whole, steps, self.inner[i - 1]);
            self.lemma_row_total_finite(
                parts,
                row,
                node,
                n,
                exact + own(i - 1),
                whole + own_sizes(i - 1),
                steps + 1,
                all,
                limit,
            );
        }
    }

    /// The total weight of a graph of communities is near the sum of all weights of the graph
    /// that it is made of, those inside nodes included, and it is finite unless the sum comes
    /// near the largest finite number.
    pub proof fn law_total_is_near(self, parts: Seq<Set<usize>>, nodes: Seq<Community>)
        requires
            self.nodes.len() <= usize::MAX,
            crate::refine::partitions(parts, crate::refine::numbers(self.nodes.len())),
        ensures
            self.bridged(parts, nodes).total_weight.finite() ==> near(
                self.bridged(parts, nodes).total_weight.amount(),
                sum(self.nodes.len() as int, |a: int| self.inner_amount(a)) + sum(
                    self.nodes.len() as int,
                    |a: int| self.later_row(a),
                ),
                sum(self.nodes.len() as int, |a: int| size(self.inner_amount(a))) + sum(
                    self.nodes.len() as int,
                    |a: int| self.later_row_size(a),
                ),
                self.nodes.len() * self.nodes.len() + self.nodes.len(),
            ),
            (forall|c: usize, d: usize| #[trigger]
                self.adjacent(c, d) ==> self.weight(c, d).finite()) && (forall|a: int|
                0 <= a < self.nodes.len() ==> (#[trigger] self.inner[a]).finite()) && fits(
                sum(self.nodes.len() as int, |a: int| size(self.inner_amount(a))) + sum(
                    self.nodes.len() as int,
                    |a: int| self.later_row_size(a),
                ),
                self.nodes.len() * self.nodes.len() + self.nodes.len(),
            ) ==> self.bridged(parts, nodes).total_weight.finite(),
    {
        let n = self.nodes.len() as int;
        crate::refine::lemma_numbers(self.nodes.len());
        crate::refine::lemma_partition_size(parts, crate::refine::numbers(self.nodes.len()));
        let own_sizes = |a: int| size(self.inner_amount(a));
        let row_sizes = |a: int| self.later_row_size(a);
        let limit = self.nodes.len() * self.nodes.len() + self.nodes.len();
        if self.bridged(parts, nodes).total_weight.finite() {
            self.lemma_total_near(parts, nodes, n);
        }
        if (forall|c: usize, d: usize| #[trigger]
            self.adjacent(c, d) ==> self.weight(c, d).finite()) && (forall|a: int|
            0 <= a < self.nodes.len() ==> (#[trigger] self.inner[a]).finite()) && fits(
            sum(n, own_sizes) + sum(n, row_sizes),
            limit,
        ) {
            self.lemma_total_finite(
                parts,
                nodes,
                n,
                sum(n, own_sizes) + sum(n, row_sizes),
                limit,
            );
        }
    }

    /// A new node is the last, with its data and nothing inside; all else stays.
    pub proof fn law_node_is_added(self, node_data: N, i: int)
        requires
            self.wf(),
        ensures
            self.with_node(node_data).nodes.len() == self.nodes.len() + 1,
            self.with_node(node_data).nodes.last() == node_data,
            0 <= i < self.nodes.len() ==> self.with_node(node_data).nodes[i] == self.nodes[i]
                && self.with_node(node_data).inner[i] == self.inner[i],
            self.with_node(node_data).inner.len() == self.nodes.len() + 1,
            self.with_node(node_data).inner.last().amount() == 0,
            self.with_node(node_data).edges == self.edges,
            self.with_node(node_data).ids == self.ids,
            self.with_node(node_data).total_weight == self.total_weight,
    {
        crate::binary32::lemma_zero_amount();
    }

    /// An edge adds its weight to the total, and is one more edge if the nodes were not
    /// joined; nodes and what is inside them stay, and so does everything where the two nodes
    /// are one.
    pub proof fn law_edge_is_added(self, a: usize, b: usize, edge_data: E, weight: Binary32)
        requires
            self.wf(),
        ensures
            self.with_edge(a, b, edge_data, weight).nodes == self.nodes,
            self.with_edge(a, b, edge_data, weight).inner == self.inner,
            a == b ==> self.with_edge(a, b, edge_data, weight) == self,
            a != b ==> self.with_edge(a, b, edge_data, weight).total_weight
                == self.total_weight.added(weight),
            a != b && self.edge_between(a, b) is None ==> self.with_edge(
                a,
                b,
                edge_data,
                weight,
            ).edges.len() == self.edges.len() + 1,
            self.edge_between(a, b) is Some ==> self.with_edge(
                a,
                b,
                edge_data,
                weight,
            ).edges.len() == self.edges.len(),
    {
        if self.ids.contains_key((a, b)) {
            assert(a != b);
        }
    }
}

} // verus!
