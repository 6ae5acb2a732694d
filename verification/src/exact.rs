//! Modularity without rounding.
//!
//! Over the amounts that weights stand for, in units of the smallest positive number,
//! modularity is a fraction of integers: with `M` the total amount and `K` the degrees,
//! it is the sum of `2 * M * w(i, j) - K(i) * K(j)` over the pairs in one community,
//! divided by `2 * M * M`. The laws here tie what a move gains to that sum.

use crate::binary32::Binary32;
use crate::graph::{EdgeInfo, GraphView};
use crate::tables::CommunityId;
use vstd::prelude::*;

verus! {

/// The amounts of the weights of some edges, added up.
pub open spec fn edge_amounts<E>(edges: Seq<EdgeInfo<E>>) -> int
    decreases edges.len(),
{
    if edges.len() == 0 {
        0
    } else {
        edge_amounts(edges.drop_last()) + edges.last().weight.amount()
    }
}

/// The amounts of some weights, added up.
pub open spec fn amounts(weights: Seq<Binary32>) -> int
    decreases weights.len(),
{
    if weights.len() == 0 {
        0
    } else {
        amounts(weights.drop_last()) + weights.last().amount()
    }
}

impl<N, E> GraphView<N, E> {
    /// The amount of the weight between `a` and `b`.
    pub open spec fn exact_weight(self, a: usize, b: usize) -> int {
        if self.adjacent(a, b) {
            self.weight(a, b).amount()
        } else {
            0
        }
    }

    /// The amounts of the weights from `a` to the nodes below `b`, added up.
    pub open spec fn exact_degree_below(self, a: usize, b: int) -> int
        decreases b,
    {
        if b <= 0 {
            0
        } else {
            self.exact_degree_below(a, b - 1) + self.exact_weight(a, (b - 1) as usize)
        }
    }

    /// The degree of `a` without rounding.
    pub open spec fn exact_degree(self, a: usize) -> int {
        self.exact_degree_below(a, self.nodes.len() as int) + 2 * self.inner[a as int].amount()
    }

    /// The total weight without rounding.
    pub open spec fn exact_total(self) -> int {
        edge_amounts(self.edges) + amounts(self.inner)
    }

    /// What the pair `a`, `b` contributes to modularity, times twice the total.
    pub open spec fn exact_term(self, a: usize, b: usize) -> int {
        2 * self.exact_total() * self.exact_weight(a, b) - self.exact_degree(a) * self.exact_degree(
            b,
        )
    }

    /// The terms of `j` with the nodes below `i` that are in its community.
    pub open spec fn exact_row(self, labels: Map<usize, CommunityId>, j: usize, i: int) -> int
        decreases i,
    {
        if i <= 0 {
            0
        } else {
            let b = (i - 1) as usize;
            self.exact_row(labels, j, i - 1) + if labels[b] == labels[j] {
                self.exact_term(b, j)
            } else {
                0
            }
        }
    }

    /// The terms of the pairs of nodes below `m` that are in one community.
    pub open spec fn exact_pairs_below(self, labels: Map<usize, CommunityId>, m: int) -> int
        decreases m,
    {
        if m <= 0 {
            0
        } else {
            self.exact_pairs_below(labels, m - 1) + self.exact_row(
                labels,
                (m - 1) as usize,
                m - 1,
            )
        }
    }

    /// The terms of all pairs that are in one community: modularity without rounding,
    /// times twice the square of the total weight.
    pub open spec fn exact_pairs(self, labels: Map<usize, CommunityId>) -> int {
        self.exact_pairs_below(labels, self.nodes.len() as int)
    }

    /// The amounts of the weights from `node` to the nodes below `b` in community `c`.
    pub open spec fn exact_links_below(
        self,
        labels: Map<usize, CommunityId>,
        node: usize,
        c: CommunityId,
        b: int,
    ) -> int
        decreases b,
    {
        if b <= 0 {
            0
        } else {
            let last = (b - 1) as usize;
            self.exact_links_below(labels, node, c, b - 1) + if labels[last] == c {
                self.exact_weight(node, last)
            } else {
                0
            }
        }
    }

    /// The amounts of the weights from `node` to the nodes of community `c`.
    pub open spec fn exact_links(
        self,
        labels: Map<usize, CommunityId>,
        node: usize,
        c: CommunityId,
    ) -> int {
        self.exact_links_below(labels, node, c, self.nodes.len() as int)
    }

    /// The degrees of the nodes below `b` in community `c`, added up.
    pub open spec fn exact_sum_below(
        self,
        labels: Map<usize, CommunityId>,
        c: CommunityId,
        b: int,
    ) -> int
        decreases b,
    {
        if b <= 0 {
            0
        } else {
            let last = (b - 1) as usize;
            self.exact_sum_below(labels, c, b - 1) + if labels[last] == c {
                self.exact_degree(last)
            } else {
                0
            }
        }
    }

    /// The degrees of the nodes of community `c`, added up.
    pub open spec fn exact_sum(self, labels: Map<usize, CommunityId>, c: CommunityId) -> int {
        self.exact_sum_below(labels, c, self.nodes.len() as int)
    }

    /// What a move of `node` to community `c` gains, without rounding, times twice the
    /// square of the total weight.
    pub open spec fn exact_gain(
        self,
        labels: Map<usize, CommunityId>,
        node: usize,
        c: CommunityId,
    ) -> int {
        let own = labels[node];
        let k = self.exact_degree(node);
        2 * self.exact_total() * (self.exact_links(labels, node, c) - self.exact_links(
            labels,
            node,
            own,
        )) - k * (self.exact_sum(labels, c) - (self.exact_sum(labels, own) - k))
    }

    /// The terms of `node` with the other nodes below `b` in community `c`.
    spec fn ties_below(
        self,
        labels: Map<usize, CommunityId>,
        node: usize,
        c: CommunityId,
        b: int,
    ) -> int
        decreases b,
    {
        if b <= 0 {
            0
        } else {
            let last = (b - 1) as usize;
            self.ties_below(labels, node, c, b - 1) + if last != node && labels[last] == c {
                self.exact_term(node, last)
            } else {
                0
            }
        }
    }

    /// The terms of `j` with the nodes below `i` in its community, pairs with `node` left
    /// out.
    spec fn row_without(
        self,
        labels: Map<usize, CommunityId>,
        node: usize,
        j: usize,
        i: int,
    ) -> int
        decreases i,
    {
        if i <= 0 {
            0
        } else {
            let b = (i - 1) as usize;
            self.row_without(labels, node, j, i - 1) + if b != node && j != node && labels[b]
                == labels[j] {
                self.exact_term(b, j)
            } else {
                0
            }
        }
    }

    /// The terms of the pairs below `m` in one community, pairs with `node` left out.
    spec fn pairs_without(self, labels: Map<usize, CommunityId>, node: usize, m: int) -> int
        decreases m,
    {
        if m <= 0 {
            0
        } else {
            self.pairs_without(labels, node, m - 1) + self.row_without(
                labels,
                node,
                (m - 1) as usize,
                m - 1,
            )
        }
    }

    pub(crate) proof fn lemma_term_symmetric(self, a: usize, b: usize)
        requires
            self.wf(),
        ensures
            self.exact_weight(a, b) == self.exact_weight(b, a),
            self.exact_term(a, b) == self.exact_term(b, a),
    {
        if self.adjacent(a, b) {
            assert(self.ids.contains_key((a, b)));
        }
        if self.adjacent(b, a) {
            assert(self.ids.contains_key((b, a)));
        }
        assert(self.exact_degree(a) * self.exact_degree(b) == self.exact_degree(b)
            * self.exact_degree(a)) by (nonlinear_arith);
    }

    /// The row of a node other than `node`, with the pair with `node` set apart.
    proof fn lemma_row_apart(
        self,
        labels: Map<usize, CommunityId>,
        node: usize,
        j: usize,
        i: int,
    )
        requires
            self.wf(),
            j != node,
            0 <= i <= j,
        ensures
            self.exact_row(labels, j, i) == self.row_without(labels, node, j, i) + if node < i
                && labels[node] == labels[j] {
                self.exact_term(node, j)
            } else {
                0
            },
        decreases i,
    {
        if 0 < i {
            self.lemma_row_apart(labels, node, j, i - 1);
        }
    }

    /// The row of `node` itself.
    proof fn lemma_row_own(self, labels: Map<usize, CommunityId>, node: usize, i: int)
        requires
            self.wf(),
            0 <= i <= node,
        ensures
            self.exact_row(labels, node, i) == self.ties_below(labels, node, labels[node], i),
            self.row_without(labels, node, node, i) == 0,
        decreases i,
    {
        if 0 < i {
            self.lemma_row_own(labels, node, i - 1);
            self.lemma_term_symmetric((i - 1) as usize, node);
        }
    }

    /// The pairs below `m`, with those of `node` set apart.
    proof fn lemma_pairs_apart(self, labels: Map<usize, CommunityId>, node: usize, m: int)
        requires
            self.wf(),
            0 <= m <= usize::MAX,
        ensures
            self.exact_pairs_below(labels, m) == self.pairs_without(labels, node, m) + if node < m {
                self.ties_below(labels, node, labels[node], m)
            } else {
                0
            },
        decreases m,
    {
        if 0 < m {
            let j = (m - 1) as usize;
            self.lemma_pairs_apart(labels, node, m - 1);
            if j == node {
                self.lemma_row_own(labels, node, m - 1);
            } else {
                self.lemma_row_apart(labels, node, j, m - 1);
                self.lemma_term_symmetric(node, j);
            }
        }
    }

    /// What leaves `node` out does not see its label.
    proof fn lemma_relabelled(
        self,
        labels: Map<usize, CommunityId>,
        node: usize,
        c: CommunityId,
        d: CommunityId,
        m: int,
    )
        requires
            0 <= m <= usize::MAX,
        ensures
            self.pairs_without(labels.insert(node, c), node, m) == self.pairs_without(
                labels,
                node,
                m,
            ),
            self.ties_below(labels.insert(node, c), node, d, m) == self.ties_below(
                labels,
                node,
                d,
                m,
            ),
        decreases m,
    {
        if 0 < m {
            self.lemma_relabelled(labels, node, c, d, m - 1);
            self.lemma_row_relabelled(labels, node, c, (m - 1) as usize, m - 1);
        }
    }

    proof fn lemma_row_relabelled(
        self,
        labels: Map<usize, CommunityId>,
        node: usize,
        c: CommunityId,
        j: usize,
        i: int,
    )
        requires
            0 <= i <= usize::MAX,
        ensures
            self.row_without(labels.insert(node, c), node, j, i) == self.row_without(
                labels,
                node,
                j,
                i,
            ),
        decreases i,
    {
        if 0 < i {
            self.lemma_row_relabelled(labels, node, c, j, i - 1);
        }
    }

    /// The terms of `node` with a community, by its links to it and the sum of its
    /// degrees.
    proof fn lemma_ties(
        self,
        labels: Map<usize, CommunityId>,
        node: usize,
        c: CommunityId,
        b: int,
    )
        requires
            self.wf(),
            0 <= b <= usize::MAX,
        ensures
            self.ties_below(labels, node, c, b) == 2 * self.exact_total() * self.exact_links_below(
                labels,
                node,
                c,
                b,
            ) - self.exact_degree(node) * (self.exact_sum_below(labels, c, b) - if node < b
                && labels[node] == c {
                self.exact_degree(node)
            } else {
                0
            }),
        decreases b,
    {
        let m2 = 2 * self.exact_total();
        let k = self.exact_degree(node);
        if 0 < b {
            let last = (b - 1) as usize;
            self.lemma_ties(labels, node, c, b - 1);
            let links = self.exact_links_below(labels, node, c, b - 1);
            let sum = self.exact_sum_below(labels, c, b - 1);
            let w = self.exact_weight(node, last);
            let d = self.exact_degree(last);
            let own = if node < b - 1 && labels[node] == c {
                k
            } else {
                0
            };
            if self.adjacent(node, node) {
                assert(self.ids.contains_key((node, node)));
            }
            assert(m2 * (links + w) == m2 * links + m2 * w) by (nonlinear_arith);
            assert(k * (sum + d - own) == k * (sum - own) + k * d) by (nonlinear_arith);
            assert(k * (sum + k - (own + k)) == k * (sum - own)) by (nonlinear_arith);
        } else {
            assert(m2 * 0 == 0) by (nonlinear_arith);
            assert(k * 0 == 0) by (nonlinear_arith);
        }
    }

    /// What a move gains is the change of modularity.
    pub proof fn law_gain_is_the_change(
        self,
        labels: Map<usize, CommunityId>,
        node: usize,
        c: CommunityId,
    )
        requires
            self.wf(),
            self.nodes.len() <= usize::MAX,
            node < self.nodes.len(),
            c != labels[node],
        ensures
            self.exact_pairs(labels.insert(node, c)) - self.exact_pairs(labels) == self.exact_gain(
                labels,
                node,
                c,
            ),
    {
        let n = self.nodes.len() as int;
        let own = labels[node];
        let after = labels.insert(node, c);
        self.lemma_pairs_apart(labels, node, n);
        self.lemma_pairs_apart(after, node, n);
        self.lemma_relabelled(labels, node, c, c, n);
        self.lemma_ties(labels, node, c, n);
        self.lemma_ties(labels, node, own, n);
        let m2 = 2 * self.exact_total();
        let k = self.exact_degree(node);
        let wc = self.exact_links(labels, node, c);
        let wo = self.exact_links(labels, node, own);
        let sc = self.exact_sum(labels, c);
        let so = self.exact_sum(labels, own);
        assert((m2 * wc - k * (sc - 0)) - (m2 * wo - k * (so - k)) == m2 * (wc - wo) - k * (sc - (so
            - k))) by (nonlinear_arith);
    }
}

} // verus!
