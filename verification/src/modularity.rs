//! The modularity of an assignment of nodes to communities.

use crate::binary32::Binary32;
use crate::graph::{search, Graph, GraphView};
use crate::tables::{assignments_get, CommunityAssignments, CommunityId};
use vstd::prelude::*;

verus! {

/// The move of a node to a community.
#[derive(Clone, Copy, Debug)]
pub struct LocalMove {
    pub node: usize,
    pub community: u32,
}

/// A move, or none.
pub(crate) trait MaybeLocalMove {
    spec fn moved(&self) -> Option<LocalMove>;

    fn get(&self) -> (r: Option<&LocalMove>)
        ensures
            match r {
                Some(local_move) => self.moved() == Some(*local_move),
                None => self.moved() is None,
            },
    ;
}

impl MaybeLocalMove for LocalMove {
    open spec fn moved(&self) -> Option<LocalMove> {
        Some(*self)
    }

    fn get(&self) -> (r: Option<&LocalMove>) {
        Some(self)
    }
}

impl MaybeLocalMove for () {
    open spec fn moved(&self) -> Option<LocalMove> {
        None
    }

    fn get(&self) -> (r: Option<&LocalMove>) {
        None
    }
}

/// The assignment once the move was made.
pub open spec fn after_move(
    assignments: Map<usize, CommunityId>,
    local_move: Option<LocalMove>,
) -> Map<usize, CommunityId> {
    match local_move {
        None => assignments,
        Some(local_move) => assignments.insert(local_move.node, local_move.community),
    }
}

impl<N, E> GraphView<N, E> {
    /// Every node has a community.
    pub open spec fn covered_by(self, assignments: Map<usize, CommunityId>) -> bool {
        forall|node: usize| node < self.nodes.len() ==> #[trigger] assignments.contains_key(node)
    }

    /// The weight of the edge between `a` and `b`.
    pub open spec fn weight(self, a: usize, b: usize) -> Binary32 {
        self.edges[self.ids[(a, b)] as int].weight
    }

    /// The weights of the edges from `a` to the nodes below `b`, added up in that order.
    pub open spec fn degree_below(self, a: usize, b: int) -> Binary32
        decreases b,
    {
        if b <= 0 {
            Binary32 { bits: 0 }
        } else {
            let rest = self.degree_below(a, b - 1);
            if self.adjacent(a, (b - 1) as usize) {
                rest.added(self.weight(a, (b - 1) as usize))
            } else {
                rest
            }
        }
    }

    /// The sum of the weights of the edges of `a`, and of the weight inside it, which
    /// counts from both ends.
    pub open spec fn weighted_degree(self, a: usize) -> Binary32 {
        self.degree_below(a, self.nodes.len() as int).added(
            self.inner[a as int].added(self.inner[a as int]),
        )
    }

    /// The weighted degree of each node.
    pub open spec fn degrees(self) -> Seq<Binary32> {
        Seq::new(self.nodes.len(), |i: int| self.weighted_degree(i as usize))
    }

    /// What the pair `i`, `j` contributes where both are in one community: the weight
    /// between them less the one expected from their weighted degrees.
    pub open spec fn pair_term(self, i: usize, j: usize) -> Binary32 {
        let ki = self.weighted_degree(i);
        let kj = self.weighted_degree(j);
        let m = self.total_weight;
        if self.adjacent(i, j) {
            self.weight(i, j).subtracted(ki.multiplied(kj).divided(m.added(m)))
        } else {
            ki.opposite().multiplied(kj).divided(m.added(m))
        }
    }

    /// `q` and the terms of the pairs of `i` with the nodes after it and below `j`.
    pub open spec fn with_pairs(
        self,
        assignments: Map<usize, CommunityId>,
        q: Binary32,
        i: int,
        j: int,
    ) -> Binary32
        decreases j,
    {
        if j <= i + 1 || j <= 0 {
            q
        } else {
            let rest = self.with_pairs(assignments, q, i, j - 1);
            if assignments[i as usize] == assignments[(j - 1) as usize] {
                rest.added(self.pair_term(i as usize, (j - 1) as usize))
            } else {
                rest
            }
        }
    }

    /// The terms of all pairs whose first node is below `i`.
    pub open spec fn pairs_below(self, assignments: Map<usize, CommunityId>, i: int) -> Binary32
        decreases i,
    {
        if i <= 0 {
            Binary32 { bits: 0 }
        } else {
            self.with_pairs(
                assignments,
                self.pairs_below(assignments, i - 1),
                i - 1,
                self.nodes.len() as int,
            )
        }
    }

    /// The modularity: the terms of all pairs of nodes in one community, over the total
    /// weight.
    pub open spec fn modularity(self, assignments: Map<usize, CommunityId>) -> Binary32 {
        self.pairs_below(assignments, self.nodes.len() as int).divided(self.total_weight)
    }

    proof fn lemma_degree_summed(self, a: usize, b: int)
        ensures
            self.degree_below(a, b).summed_up(),
        decreases b,
    {
        if 0 < b {
            self.lemma_degree_summed(a, b - 1);
            self.degree_below(a, b - 1).lemma_summed_up(self.weight(a, (b - 1) as usize));
        }
    }

    /// Where there is no weight inside nodes, as in a graph that only nodes and edges were
    /// added to, the weighted degree of a node is the sum of the weights of its edges.
    pub proof fn law_plain_degree(self, a: usize)
        requires
            self.wf(),
            self.plain(),
            a < self.nodes.len(),
        ensures
            self.weighted_degree(a) == self.degree_below(a, self.nodes.len() as int),
    {
        let zero = Binary32 { bits: 0 };
        assert(self.inner[a as int] == zero);
        zero.lemma_summed_zero();
        self.lemma_degree_summed(a, self.nodes.len() as int);
        self.degree_below(a, self.nodes.len() as int).lemma_summed_zero();
    }

    /// Nodes that are no neighbours add nothing.
    pub(crate) proof fn lemma_degree_gap(self, a: usize, low: int, high: int)
        requires
            0 <= low <= high,
            forall|b: int| low <= b < high ==> !#[trigger] self.adjacent(a, b as usize),
        ensures
            self.degree_below(a, low) == self.degree_below(a, high),
        decreases high,
    {
        if low < high {
            self.lemma_degree_gap(a, low, high - 1);
            assert(!self.adjacent(a, (high - 1) as usize));
        }
    }
}

impl<N, E> GraphView<N, E> {
    /// Two assignments put the same nodes together.
    pub open spec fn alike(
        self,
        first: Map<usize, CommunityId>,
        second: Map<usize, CommunityId>,
    ) -> bool {
        forall|a: usize, b: usize|
            a < self.nodes.len() && b < self.nodes.len() ==> (#[trigger] first[a] == #[trigger] first[b]
                <==> second[a] == second[b])
    }

    proof fn lemma_alike_row(
        self,
        first: Map<usize, CommunityId>,
        second: Map<usize, CommunityId>,
        q: Binary32,
        i: int,
        j: int,
    )
        requires
            self.alike(first, second),
            0 <= i,
            j <= self.nodes.len() <= usize::MAX,
        ensures
            self.with_pairs(first, q, i, j) == self.with_pairs(second, q, i, j),
        decreases j,
    {
        if i + 1 < j {
            self.lemma_alike_row(first, second, q, i, j - 1);
            let a = i as usize;
            let b = (j - 1) as usize;
            assert(first[a] == first[b] <==> second[a] == second[b]);
        }
    }

    proof fn lemma_alike(
        self,
        first: Map<usize, CommunityId>,
        second: Map<usize, CommunityId>,
        i: int,
    )
        requires
            self.alike(first, second),
            i <= self.nodes.len() <= usize::MAX,
        ensures
            self.pairs_below(first, i) == self.pairs_below(second, i),
        decreases i,
    {
        if 0 < i {
            self.lemma_alike(first, second, i - 1);
            self.lemma_alike_row(
                first,
                second,
                self.pairs_below(first, i - 1),
                i - 1,
                self.nodes.len() as int,
            );
        }
    }

    /// Modularity depends on which nodes are together, not on the labels of their
    /// communities.
    pub proof fn law_labels_are_irrelevant(
        self,
        first: Map<usize, CommunityId>,
        second: Map<usize, CommunityId>,
    )
        requires
            self.alike(first, second),
            self.nodes.len() <= usize::MAX,
        ensures
            self.modularity(first) == self.modularity(second),
    {
        self.lemma_alike(first, second, self.nodes.len() as int);
    }

    proof fn lemma_alone(self, labels: Map<usize, CommunityId>, q: Binary32, i: int, j: int)
        requires
            forall|a: usize, b: usize|
                a < b < self.nodes.len() ==> #[trigger] labels[a] != #[trigger] labels[b],
            0 <= i,
            j <= self.nodes.len() <= usize::MAX,
        ensures
            self.with_pairs(labels, q, i, j) == q,
        decreases j,
    {
        if i + 1 < j {
            self.lemma_alone(labels, q, i, j - 1);
            let a = i as usize;
            let b = (j - 1) as usize;
            assert(labels[a] != labels[b]);
        }
    }

    proof fn lemma_all_alone(self, labels: Map<usize, CommunityId>, i: int)
        requires
            forall|a: usize, b: usize|
                a < b < self.nodes.len() ==> #[trigger] labels[a] != #[trigger] labels[b],
            i <= self.nodes.len() <= usize::MAX,
        ensures
            self.pairs_below(labels, i) == (Binary32 { bits: 0 }),
        decreases i,
    {
        if 0 < i {
            self.lemma_all_alone(labels, i - 1);
            self.lemma_alone(
                labels,
                self.pairs_below(labels, i - 1),
                i - 1,
                self.nodes.len() as int,
            );
        }
    }

    /// Where every node is alone, no pair contributes anything.
    pub proof fn law_alone_contributes_nothing(self, labels: Map<usize, CommunityId>)
        requires
            forall|a: usize, b: usize|
                a < b < self.nodes.len() ==> #[trigger] labels[a] != #[trigger] labels[b],
            self.nodes.len() <= usize::MAX,
        ensures
            self.modularity(labels) == (Binary32 { bits: 0 }).divided(self.total_weight),
    {
        self.lemma_all_alone(labels, self.nodes.len() as int);
    }
}

/// No neighbour of `a` stands between two neighbours that follow each other in its list.
pub(crate) proof fn lemma_gap<N, E>(g: &Graph<N, E>, a: usize, k: int, b: int)
    requires
        g.wf(),
        a < g@.nodes.len(),
        0 <= k <= g.links(a as int).len(),
        0 < k ==> g.links(a as int)[k - 1].0 < b,
        0 <= b,
        k < g.links(a as int).len() ==> b < g.links(a as int)[k].0,
        b < g@.nodes.len(),
    ensures
        !g@.adjacent(a, b as usize),
{
    let list = g.links(a as int);
    assert(sorted_list(g, a as int));
    if g@.adjacent(a, b as usize) {
        let c = b as usize;
        assert(g.linked(a, c));
        let i = choose|i: int| crate::graph::found_at(list, c, i);
        if i < k {
            if i < k - 1 {
                assert(list[i].0 < list[k - 1].0);
            }
        } else if k < i {
            assert(list[k].0 < list[i].0);
        }
    }
}

pub(crate) open spec fn sorted_list<N, E>(g: &Graph<N, E>, a: int) -> bool {
    crate::graph::sorted(g.links(a))
}

impl<N, E> Graph<N, E> {
    /// The weighted degree of each node.
    pub fn weighted_degrees(&self) -> (degrees: Vec<Binary32>)
        requires
            self.wf(),
        ensures
            degrees@ == self@.degrees(),
            degrees@.len() == self@.nodes.len(),
            forall|a: usize|
                a < self@.nodes.len() ==> #[trigger] degrees@[a as int] == self@.weighted_degree(a),
    {
        let node_count: usize = self.nodes.len();
        let mut degrees: Vec<Binary32> = Vec::new();
        let mut a: usize = 0;
        while a < node_count
            invariant
                self.wf(),
                node_count == self@.nodes.len(),
                a <= node_count,
                degrees@ == self@.degrees().take(a as int),
            decreases node_count - a,
        {
            let count: usize = self.connections[a].len();
            let mut degree: Binary32 = Binary32::from_bits(0);
            let mut k: usize = 0;
            let ghost mut done: int = 0;
            while k < count
                invariant
                    self.wf(),
                    node_count == self@.nodes.len(),
                    a < node_count,
                    count == self.links(a as int).len(),
                    k <= count,
                    0 <= done <= node_count,
                    k == 0 ==> done == 0,
                    0 < k ==> done == self.links(a as int)[k - 1].0 + 1,
                    degree == self@.degree_below(a, done),
                decreases count - k,
            {
                let (neighbor, edge_id) = self.connections[a][k];
                proof {
                    crate::graph::lemma_link(self, a, k as int);
                    assert(sorted_list(self, a as int));
                    assert(self@.adjacent(a, neighbor));
                    assert forall|b: int| done <= b < neighbor implies !#[trigger] self@.adjacent(
                        a,
                        b as usize,
                    ) by {
                        lemma_gap(self, a, k as int, b);
                    }
                    self@.lemma_degree_gap(a, done, neighbor as int);
                    done = neighbor + 1;
                }
                degree = degree.plus(self.edges[edge_id].weight);
                k = k + 1;
            }
            proof {
                assert forall|b: int| done <= b < node_count implies !#[trigger] self@.adjacent(
                    a,
                    b as usize,
                ) by {
                    lemma_gap(self, a, k as int, b);
                }
                self@.lemma_degree_gap(a, done, node_count as int);
            }
            let inner: Binary32 = self.inner[a];
            degrees.push(degree.plus(inner.plus(inner)));
            assert(degrees@ =~= self@.degrees().take(a + 1));
            a = a + 1;
        }
        assert(degrees@ =~= self@.degrees());
        degrees
    }

    /// The modularity of an assignment.
    pub fn compute_modularity(&self, assignments: &CommunityAssignments) -> (q: Binary32)
        requires
            self.wf(),
            self@.covered_by(assignments@),
        ensures
            q == self@.modularity(assignments@),
    {
        self.compute_modularity_impl(assignments, ())
    }

    /// The modularity that an assignment would have if one node moved.
    pub fn compute_modularity_with_local_move(
        &self,
        assignments: &CommunityAssignments,
        local_move: LocalMove,
    ) -> (q: Binary32)
        requires
            self.wf(),
            self@.covered_by(after_move(assignments@, Some(local_move))),
        ensures
            q == self@.modularity(after_move(assignments@, Some(local_move))),
            q == self@.modularity(assignments@.insert(local_move.node, local_move.community)),
    {
        self.compute_modularity_impl(assignments, local_move)
    }

    fn compute_modularity_impl<M: MaybeLocalMove>(
        &self,
        assignments: &CommunityAssignments,
        local_move: M,
    ) -> (q: Binary32)
        requires
            self.wf(),
            self@.covered_by(after_move(assignments@, local_move.moved())),
        ensures
            q == self@.modularity(after_move(assignments@, local_move.moved())),
    {
        let m: Binary32 = self.total_weight;
        let node_count: usize = self.count_nodes();
        let ghost labels = after_move(assignments@, local_move.moved());
        let weighted_degrees: Vec<Binary32> = self.weighted_degrees();
        let mut q: Binary32 = Binary32::from_bits(0);
        let mut i: usize = 0;
        while i < node_count
            invariant
                self.wf(),
                node_count == self@.nodes.len(),
                m == self@.total_weight,
                labels == after_move(assignments@, local_move.moved()),
                self@.covered_by(labels),
                weighted_degrees@ == self@.degrees(),
                i <= node_count,
                q == self@.pairs_below(labels, i as int),
            decreases node_count - i,
        {
            let assign_i: u32 = assigned_after(assignments, &local_move, i);
            let ki: Binary32 = weighted_degrees[i];
            let mut j: usize = i + 1;
            let ghost row = q;
            while j < node_count
                invariant
                    self.wf(),
                    node_count == self@.nodes.len(),
                    m == self@.total_weight,
                    labels == after_move(assignments@, local_move.moved()),
                    self@.covered_by(labels),
                    weighted_degrees@ == self@.degrees(),
                    i < j <= node_count,
                    assign_i == labels[i],
                    ki == self@.weighted_degree(i),
                    q == self@.with_pairs(labels, row, i as int, j as int),
                decreases node_count - j,
            {
                let assign_j: u32 = assigned_after(assignments, &local_move, j);
                if assign_i == assign_j {
                    let kj: Binary32 = weighted_degrees[j];
                    assert(sorted_list(self, i as int));
                    match search(&self.connections[i], j) {
                        Ok(pos) => {
                            proof {
                                crate::graph::lemma_link(self, i, pos as int);
                                assert(self@.adjacent(i, j));
                            }
                            let edge_id: usize = self.connections[i][pos].1;
                            let weight: Binary32 = self.edges[edge_id].weight;
                            q = q.plus(weight.minus(ki.times(kj).over(m.plus(m))));
                        },
                        Err(_) => {
                            assert(!self@.adjacent(i, j));
                            q = q.plus(ki.negated().times(kj).over(m.plus(m)));
                        },
                    }
                }
                j = j + 1;
            }
            i = i + 1;
        }
        q.over(m)
    }
}

/// The community of a node once the move was made.
fn assigned_after<M: MaybeLocalMove>(
    assignments: &CommunityAssignments,
    local_move: &M,
    node: usize,
) -> (community: CommunityId)
    requires
        after_move(assignments@, local_move.moved()).contains_key(node),
    ensures
        community == after_move(assignments@, local_move.moved())[node],
{
    if let Some(local_move) = local_move.get() {
        if local_move.node == node {
            return local_move.community;
        }
    }
    assignments_get(assignments, node).unwrap()
}

} // verus!
