//! Modularity lies between minus one and one, and what it is where all nodes are together.

use crate::binary32::Binary32;
use crate::graph::{EdgeInfo, GraphView};
use crate::sums::{only, sum};
use crate::tables::CommunityId;
use vstd::arithmetic::power2::pow2;
use vstd::prelude::*;

verus! {

proof fn lemma_edge_amounts_nonnegative<E>(edges: Seq<EdgeInfo<E>>)
    requires
        forall|k: int| 0 <= k < edges.len() ==> (#[trigger] edges[k]).weight.amount() >= 0,
    ensures
        crate::exact::edge_amounts(edges) >= 0,
    decreases edges.len(),
{
    if edges.len() > 0 {
        let fewer = edges.drop_last();
        assert forall|k: int| 0 <= k < fewer.len() implies (
        #[trigger] fewer[k]).weight.amount() >= 0 by {
            assert(fewer[k] == edges[k]);
        }
        lemma_edge_amounts_nonnegative(fewer);
        assert(edges[edges.len() - 1].weight.amount() >= 0);
    }
}

proof fn lemma_amounts_nonnegative(weights: Seq<Binary32>)
    requires
        forall|a: int| 0 <= a < weights.len() ==> (#[trigger] weights[a]).amount() >= 0,
    ensures
        crate::exact::amounts(weights) >= 0,
    decreases weights.len(),
{
    if weights.len() > 0 {
        let fewer = weights.drop_last();
        assert forall|a: int| 0 <= a < fewer.len() implies (#[trigger] fewer[a]).amount() >= 0 by {
            assert(fewer[a] == weights[a]);
        }
        lemma_amounts_nonnegative(fewer);
        assert(weights[weights.len() - 1].amount() >= 0);
    }
}

proof fn lemma_amounts_zero(weights: Seq<Binary32>)
    requires
        forall|a: int|
            0 <= a < weights.len() ==> #[trigger] weights[a] == (Binary32 { bits: 0 }),
    ensures
        crate::exact::amounts(weights) == 0,
    decreases weights.len(),
{
    if weights.len() > 0 {
        let fewer = weights.drop_last();
        assert forall|a: int| 0 <= a < fewer.len() implies #[trigger] fewer[a] == (Binary32 {
            bits: 0,
        }) by {
            assert(fewer[a] == weights[a]);
        }
        lemma_amounts_zero(fewer);
        assert(weights[weights.len() - 1] == (Binary32 { bits: 0 }));
        crate::binary32::lemma_zero_amount();
    }
}

impl<N, E> GraphView<N, E> {
    /// No weight is below zero.
    pub open spec fn nonnegative(self) -> bool {
        &&& forall|k: int|
            0 <= k < self.edges.len() ==> (#[trigger] self.edges[k]).weight.amount() >= 0
        &&& forall|a: int|
            0 <= a < self.inner.len() ==> (#[trigger] self.inner[a]).amount() >= 0
    }

    /// All nodes are in one community.
    pub open spec fn all_together(self, labels: Map<usize, CommunityId>) -> bool {
        forall|a: usize, b: usize|
            a < self.nodes.len() && b < self.nodes.len() ==> #[trigger] labels[a]
                == #[trigger] labels[b]
    }

    /// The squares of the exact degrees, added up.
    pub open spec fn exact_squares(self, m: int) -> int {
        sum(m, |a: int| self.exact_degree(a as usize) * self.exact_degree(a as usize))
    }

    /// The exact degrees of the nodes below `m`, added up.
    spec fn degree_sum(self, m: int) -> int {
        sum(m, |a: int| self.exact_degree(a as usize))
    }

    /// The products of the exact degrees of the pairs below `m`, added up.
    spec fn degree_products(self, m: int) -> int
        decreases m,
    {
        if m <= 0 {
            0
        } else {
            self.degree_products(m - 1) + self.exact_degree((m - 1) as usize) * self.degree_sum(
                m - 1,
            )
        }
    }

    proof fn lemma_degree_products(self, m: int)
        ensures
            2 * self.degree_products(m) == self.degree_sum(m) * self.degree_sum(m)
                - self.exact_squares(m),
        decreases m,
    {
        if 0 < m {
            self.lemma_degree_products(m - 1);
            let k = self.exact_degree((m - 1) as usize);
            let s = self.degree_sum(m - 1);
            let degree = |a: int| self.exact_degree(a as usize);
            let square = |a: int| self.exact_degree(a as usize) * self.exact_degree(a as usize);
            assert(sum(m, degree) == sum(m - 1, degree) + degree(m - 1));
            assert(sum(m, square) == sum(m - 1, square) + square(m - 1));
            assert((s + k) * (s + k) == s * s + 2 * (k * s) + k * k) by (nonlinear_arith);
        } else {
            assert(self.degree_sum(m) == 0);
            assert(0int * 0int == 0);
        }
    }

    proof fn lemma_weight_nonnegative(self, a: usize, b: usize)
        requires
            self.wf(),
            self.nonnegative(),
        ensures
            self.exact_weight(a, b) >= 0,
    {
        if self.adjacent(a, b) {
            assert(self.ids.contains_key((a, b)));
            assert(self.edges[self.ids[(a, b)] as int].weight.amount() >= 0);
        }
    }

    proof fn lemma_degree_nonnegative(self, a: usize, b: int)
        requires
            self.wf(),
            self.nonnegative(),
        ensures
            self.exact_degree_below(a, b) >= 0,
            a < self.nodes.len() ==> self.exact_degree_below(a, b) + 2
                * self.inner[a as int].amount() >= 0,
        decreases b,
    {
        if 0 < b {
            self.lemma_degree_nonnegative(a, b - 1);
            self.lemma_weight_nonnegative(a, (b - 1) as usize);
        }
        if a < self.nodes.len() {
            assert(self.inner[a as int].amount() >= 0);
        }
    }

    proof fn lemma_row_bounds(
        self,
        labels: Map<usize, CommunityId>,
        one: Map<usize, CommunityId>,
        j: int,
        i: int,
    )
        requires
            self.wf(),
            self.nonnegative(),
            self.all_together(one),
            self.exact_total() >= 0,
            0 <= i <= j < self.nodes.len() <= usize::MAX,
        ensures
            self.exact_row(labels, j as usize, i) >= -(self.exact_degree(j as usize)
                * self.degree_sum(i)),
            self.exact_row(labels, j as usize, i) <= self.exact_row(one, j as usize, i)
                + self.exact_degree(j as usize) * self.degree_sum(i),
        decreases i,
    {
        let kj = self.exact_degree(j as usize);
        if 0 < i {
            let b = (i - 1) as usize;
            self.lemma_row_bounds(labels, one, j, i - 1);
            self.lemma_weight_nonnegative(b, j as usize);
            self.lemma_degree_nonnegative(b, self.nodes.len() as int);
            self.lemma_degree_nonnegative(j as usize, self.nodes.len() as int);
            let kb = self.exact_degree(b);
            let s = self.degree_sum(i - 1);
            let degree = |a: int| self.exact_degree(a as usize);
            assert(sum(i, degree) == sum(i - 1, degree) + degree(i - 1));
            assert(kj * (s + kb) == kj * s + kj * kb) by (nonlinear_arith);
            assert(kb * kj == kj * kb) by (nonlinear_arith);
            assert(kj * kb >= 0) by (nonlinear_arith)
                requires
                    kj >= 0,
                    kb >= 0,
            ;
            let m = self.exact_total();
            let w = self.exact_weight(b, j as usize);
            assert(2 * m * w >= 0) by (nonlinear_arith)
                requires
                    m >= 0,
                    w >= 0,
            ;
            assert(one[b] == one[j as usize]);
        } else {
            assert(self.degree_sum(i) == 0);
            assert(kj * 0 == 0) by (nonlinear_arith);
        }
    }

    proof fn lemma_pairs_bounds(
        self,
        labels: Map<usize, CommunityId>,
        one: Map<usize, CommunityId>,
        m: int,
    )
        requires
            self.wf(),
            self.nonnegative(),
            self.all_together(one),
            self.exact_total() >= 0,
            0 <= m <= self.nodes.len() <= usize::MAX,
        ensures
            self.exact_pairs_below(labels, m) >= -self.degree_products(m),
            self.exact_pairs_below(labels, m) <= self.exact_pairs_below(one, m)
                + self.degree_products(m),
        decreases m,
    {
        if 0 < m {
            self.lemma_pairs_bounds(labels, one, m - 1);
            self.lemma_row_bounds(labels, one, m - 1, m - 1);
        }
    }

    /// Where all nodes are together, every pair counts.
    proof fn lemma_together(self, labels: Map<usize, CommunityId>)
        requires
            self.wf(),
            self.all_together(labels),
            self.nodes.len() <= usize::MAX,
            self.edges.len() <= usize::MAX,
        ensures
            2 * self.exact_pairs(labels) == self.exact_squares(self.nodes.len() as int) - 4
                * self.exact_total() * crate::exact::amounts(self.inner),
    {
        let n = self.nodes.len() as int;
        let m2 = 2 * self.exact_total();
        let degree = |a: int| self.exact_degree(a as usize);
        self.law_degrees_add_up();
        let rows = |a: int| sum(n, |b: int| self.joint_term(labels, a, b));
        assert forall|a: int| 0 <= a < n implies #[trigger] rows(a) == 0 by {
            let k = degree(a);
            let weights = |b: int| self.full_weight(a, b);
            let scaled = |b: int| m2 * weights(b);
            let products = |b: int| (-k) * degree(b);
            let both = |b: int| scaled(b) + products(b);
            let row = |b: int| self.joint_term(labels, a, b);
            self.lemma_degree(a);
            crate::sums::lemma_times(n, m2, weights);
            crate::sums::lemma_times(n, -k, degree);
            crate::sums::lemma_plus(n, scaled, products);
            assert forall|b: int| 0 <= b < n implies #[trigger] row(b) == both(b) by {
                assert(labels[a as usize] == labels[b as usize]);
                let d = degree(b);
                assert((-k) * d == -(k * d)) by (nonlinear_arith);
            }
            crate::sums::lemma_same(n, row, both);
            assert(m2 * k + (-k) * m2 == 0) by (nonlinear_arith);
        }
        crate::sums::lemma_zero(n, rows);
        self.lemma_full_below(labels, n);
        let own = |a: int| self.full_term(a, a);
        let inner = |a: int| self.inner[a].amount();
        let square = |a: int| self.exact_degree(a as usize) * self.exact_degree(a as usize);
        let scaled = |a: int| (2 * m2) * inner(a);
        let negated = |a: int| (-1) * square(a);
        let both = |a: int| scaled(a) + negated(a);
        crate::sums::lemma_times(n, 2 * m2, inner);
        crate::sums::lemma_times(n, -1, square);
        crate::sums::lemma_plus(n, scaled, negated);
        assert forall|a: int| 0 <= a < n implies #[trigger] own(a) == both(a) by {
            if self.adjacent(a as usize, a as usize) {
                assert(self.ids.contains_key((a as usize, a as usize)));
            }
            let x = inner(a);
            assert(m2 * (0 + 2 * x) == (2 * m2) * x) by (nonlinear_arith);
        }
        crate::sums::lemma_same(n, own, both);
        crate::exact_levels::lemma_inner_sum(self.inner, n);
        let total = self.exact_total();
        let i = crate::exact::amounts(self.inner);
        assert((2 * m2) * i == 4 * total * i) by (nonlinear_arith)
            requires
                m2 == 2 * total,
        ;
    }

    /// In exact arithmetic modularity lies between minus one and one, where no weight is
    /// below zero.
    pub proof fn law_exact_bounds(self, labels: Map<usize, CommunityId>)
        requires
            self.wf(),
            self.nonnegative(),
            self.nodes.len() <= usize::MAX,
            self.edges.len() <= usize::MAX,
        ensures
            self.exact_total() >= 0,
            -(2 * self.exact_total() * self.exact_total()) <= self.exact_pairs(labels) <= 2
                * self.exact_total() * self.exact_total(),
    {
        let n = self.nodes.len() as int;
        let one: Map<usize, CommunityId> = Map::new(|node: usize| true, |node: usize| 0u32);
        lemma_edge_amounts_nonnegative(self.edges);
        lemma_amounts_nonnegative(self.inner);
        self.lemma_pairs_bounds(labels, one, n);
        self.lemma_together(one);
        self.lemma_degree_products(n);
        self.law_degrees_add_up();
        let total = self.exact_total();
        let i = crate::exact::amounts(self.inner);
        assert((2 * total) * (2 * total) == 2 * (2 * total * total)) by (nonlinear_arith);
        assert(4 * total * i >= 0) by (nonlinear_arith)
            requires
                total >= 0,
                i >= 0,
        ;
        self.lemma_squares_nonnegative(n);
    }

    proof fn lemma_squares_nonnegative(self, m: int)
        ensures
            self.exact_squares(m) >= 0,
        decreases m,
    {
        if 0 < m {
            self.lemma_squares_nonnegative(m - 1);
            let k = self.exact_degree((m - 1) as usize);
            assert(k * k >= 0) by (nonlinear_arith);
        }
    }

    /// Modularity lies between minus one and one, where no weight is below zero and
    /// computing it needs no rounding. (One is `2^149` units.)
    pub proof fn law_modularity_bounds(self, labels: Map<usize, CommunityId>)
        requires
            self.wf(),
            self.nonnegative(),
            self.nodes.len() <= usize::MAX,
            self.edges.len() <= usize::MAX,
            self.measures_exactly(),
            self.modularity_is_exact(labels),
        ensures
            -(pow2(149) as int) <= self.modularity(labels).amount() <= pow2(149),
    {
        self.law_exact_bounds(labels);
        self.law_modularity_is_exact(labels);
        crate::binary32::lemma_one_and_two();
        let q = self.modularity(labels).amount();
        let e = self.exact_pairs(labels);
        let u = pow2(149) as int;
        let total = self.exact_total();
        let square = 2 * total * total;
        assert(square > 0) by (nonlinear_arith)
            requires
                total > 0,
                square == 2 * total * total,
        ;
        assert(-u <= q <= u) by (nonlinear_arith)
            requires
                q * square == u * e,
                -square <= e <= square,
                square > 0,
                u > 0,
        {
            assert(u * e <= u * square);
            assert(u * e >= u * (-square));
            assert(u * (-square) == (-u) * square);
            if q > u {
                assert(q * square > u * square);
            }
            if q < -u {
                assert(q * square < (-u) * square);
            }
        }
    }

    /// Where all nodes are together and no weight is inside them, modularity in exact
    /// arithmetic is the sum of the squares of the degrees, over four times the square of
    /// the total weight.
    pub proof fn law_together_exactly(self, labels: Map<usize, CommunityId>)
        requires
            self.wf(),
            self.plain(),
            self.all_together(labels),
            self.nodes.len() <= usize::MAX,
            self.edges.len() <= usize::MAX,
        ensures
            2 * self.exact_pairs(labels) == self.exact_squares(self.nodes.len() as int),
    {
        self.lemma_together(labels);
        lemma_amounts_zero(self.inner);
        let total = self.exact_total();
        assert(4 * total * 0 == 0) by (nonlinear_arith);
    }

    /// The same of modularity as it is computed, where that needs no rounding. (One is
    /// `2^149` units.)
    pub proof fn law_modularity_together(self, labels: Map<usize, CommunityId>)
        requires
            self.wf(),
            self.plain(),
            self.all_together(labels),
            self.nodes.len() <= usize::MAX,
            self.edges.len() <= usize::MAX,
            self.measures_exactly(),
            self.modularity_is_exact(labels),
        ensures
            self.modularity(labels).amount() * (4 * self.exact_total() * self.exact_total())
                == pow2(149) * self.exact_squares(self.nodes.len() as int),
            self.exact_total() != 0,
    {
        self.law_together_exactly(labels);
        self.law_modularity_is_exact(labels);
        let q = self.modularity(labels).amount();
        let e = self.exact_pairs(labels);
        let u = pow2(149) as int;
        let total = self.exact_total();
        assert(q * (4 * total * total) == u * (2 * e)) by (nonlinear_arith)
            requires
                q * (2 * total * total) == u * e,
        ;
    }
}

} // verus!
