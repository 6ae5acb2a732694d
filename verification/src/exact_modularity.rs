//! Modularity that needs no rounding: what it is, between which bounds it lies, and how it
//! tells assignments apart.

use crate::graph::GraphView;
use crate::modularity::LocalMove;
use crate::moves::Progress;
use crate::optimizer::ModularityOptimizer;
use crate::sums::{only, sum};
use crate::tables::CommunityId;
use vstd::arithmetic::power2::pow2;
use vstd::prelude::*;

verus! {

impl<N, E> GraphView<N, E> {
    /// Computing what the pair `i`, `j` contributes needs no rounding.
    pub open spec fn pair_is_exact(self, i: usize, j: usize) -> bool {
        let ki = self.weighted_degree(i);
        let kj = self.weighted_degree(j);
        let m = self.total_weight;
        &&& m.sum_is_exact(m)
        &&& if self.adjacent(i, j) {
            &&& ki.product_is_exact(kj)
            &&& ki.multiplied(kj).quotient_is_exact(m.added(m))
            &&& self.weight(i, j).difference_is_exact(ki.multiplied(kj).divided(m.added(m)))
        } else {
            &&& ki.opposite().product_is_exact(kj)
            &&& ki.opposite().multiplied(kj).quotient_is_exact(m.added(m))
        }
    }

    /// Computing the modularity of an assignment needs no rounding.
    pub open spec fn modularity_is_exact(self, labels: Map<usize, CommunityId>) -> bool {
        let n = self.nodes.len() as int;
        &&& forall|i: int, j: int|
            0 <= i < j < n && labels[i as usize] == labels[j as usize] ==> self.pair_is_exact(
                i as usize,
                j as usize,
            ) && (#[trigger] self.with_pairs(
                labels,
                self.pairs_below(labels, i),
                i,
                j,
            )).sum_is_exact(self.pair_term(i as usize, j as usize))
        &&& self.pairs_below(labels, n).quotient_is_exact(self.total_weight)
    }

    proof fn lemma_pair_exact(self, i: usize, j: usize)
        requires
            self.nodes.len() <= usize::MAX,
            self.measures_exactly(),
            i < self.nodes.len(),
            j < self.nodes.len(),
            self.pair_is_exact(i, j),
        ensures
            self.pair_term(i, j).amount() * (2 * self.exact_total()) == self.exact_term(i, j),
    {
        assert(self.degree_is_exact(i));
        assert(self.degree_is_exact(j));
        self.law_degree_is_exact(i);
        self.law_degree_is_exact(j);
        let ki = self.weighted_degree(i);
        let kj = self.weighted_degree(j);
        let m = self.total_weight;
        let m2 = 2 * self.exact_total();
        let u = pow2(149) as int;
        if self.adjacent(i, j) {
            let w = self.weight(i, j).amount();
            let q = ki.multiplied(kj).divided(m.added(m)).amount();
            assert((w - q) * m2 == m2 * w - q * m2) by (nonlinear_arith);
        } else {
            ki.lemma_opposite();
            assert(m2 * 0 == 0) by (nonlinear_arith);
            let a = self.exact_degree(i);
            let b = self.exact_degree(j);
            assert((-a) * b == -(a * b)) by (nonlinear_arith);
        }
    }

    /// The term of `a` and the later node `b`, if they are in one community.
    spec fn later_term(self, labels: Map<usize, CommunityId>, a: int, b: int) -> int {
        only(
            a < b && labels[a as usize] == labels[b as usize],
            self.exact_term(a as usize, b as usize),
        )
    }

    proof fn lemma_with_pairs_exact(self, labels: Map<usize, CommunityId>, i: int, j: int)
        requires
            self.nodes.len() <= usize::MAX,
            self.measures_exactly(),
            self.modularity_is_exact(labels),
            0 <= i < self.nodes.len(),
            0 <= j <= self.nodes.len(),
        ensures
            self.with_pairs(labels, self.pairs_below(labels, i), i, j).amount() * (2
                * self.exact_total()) == self.pairs_below(labels, i).amount() * (2
                * self.exact_total()) + sum(j, |b: int| self.later_term(labels, i, b)),
        decreases j,
    {
        let m2 = 2 * self.exact_total();
        let q = self.pairs_below(labels, i);
        let terms = |b: int| self.later_term(labels, i, b);
        if j <= i + 1 {
            crate::sums::lemma_zero(j, terms);
        } else {
            let last = j - 1;
            self.lemma_with_pairs_exact(labels, i, last);
            assert(sum(j, terms) == sum(last, terms) + terms(last));
            let rest = self.with_pairs(labels, q, i, last);
            if labels[i as usize] == labels[last as usize] {
                assert(rest.sum_is_exact(self.pair_term(i as usize, last as usize)));
                self.lemma_pair_exact(i as usize, last as usize);
                let r = rest.amount();
                let t = self.pair_term(i as usize, last as usize).amount();
                assert((r + t) * m2 == r * m2 + t * m2) by (nonlinear_arith);
            }
        }
    }

    proof fn lemma_pairs_exact(self, labels: Map<usize, CommunityId>, i: int)
        requires
            self.nodes.len() <= usize::MAX,
            self.measures_exactly(),
            self.modularity_is_exact(labels),
            0 <= i <= self.nodes.len(),
        ensures
            self.pairs_below(labels, i).amount() * (2 * self.exact_total()) == sum(
                i,
                |a: int|
                    sum(self.nodes.len() as int, |b: int| self.later_term(labels, a, b)),
            ),
        decreases i,
    {
        let n = self.nodes.len() as int;
        let m2 = 2 * self.exact_total();
        if 0 < i {
            self.lemma_pairs_exact(labels, i - 1);
            self.lemma_with_pairs_exact(labels, i - 1, n);
            let rows = |a: int| sum(n, |b: int| self.later_term(labels, a, b));
            assert(sum(i, rows) == sum(i - 1, rows) + rows(i - 1));
        } else {
            crate::binary32::lemma_zero_amount();
            assert(0 * m2 == 0) by (nonlinear_arith);
        }
    }

    proof fn lemma_row_later(self, labels: Map<usize, CommunityId>, j: int, i: int)
        requires
            0 <= i <= j <= usize::MAX,
        ensures
            self.exact_row(labels, j as usize, i) == sum(
                i,
                |a: int| self.later_term(labels, a, j),
            ),
        decreases i,
    {
        if 0 < i {
            self.lemma_row_later(labels, j, i - 1);
        }
    }

    proof fn lemma_row_rest(self, labels: Map<usize, CommunityId>, j: int, n: int)
        requires
            0 <= j <= n,
        ensures
            sum(n, |a: int| self.later_term(labels, a, j)) == sum(
                j,
                |a: int| self.later_term(labels, a, j),
            ),
        decreases n,
    {
        if j < n {
            self.lemma_row_rest(labels, j, n - 1);
        }
    }

    proof fn lemma_columns(self, labels: Map<usize, CommunityId>, m: int)
        requires
            0 <= m <= self.nodes.len() <= usize::MAX,
        ensures
            self.exact_pairs_below(labels, m) == sum(
                m,
                |b: int|
                    sum(self.nodes.len() as int, |a: int| self.later_term(labels, a, b)),
            ),
        decreases m,
    {
        let n = self.nodes.len() as int;
        if 0 < m {
            self.lemma_columns(labels, m - 1);
            self.lemma_row_later(labels, m - 1, m - 1);
            self.lemma_row_rest(labels, m - 1, n);
            let columns = |b: int| sum(n, |a: int| self.later_term(labels, a, b));
            assert(sum(m, columns) == sum(m - 1, columns) + columns(m - 1));
        }
    }

    /// Where computing it needs no rounding, modularity is the sum of the terms of the
    /// pairs in one community, over twice the square of the total weight. (One is
    /// `2^149` units.)
    pub proof fn law_modularity_is_exact(self, labels: Map<usize, CommunityId>)
        requires
            self.nodes.len() <= usize::MAX,
            self.measures_exactly(),
            self.modularity_is_exact(labels),
        ensures
            self.modularity(labels).amount() * (2 * self.exact_total() * self.exact_total())
                == pow2(149) * self.exact_pairs(labels),
            self.exact_total() != 0,
    {
        let n = self.nodes.len() as int;
        self.lemma_pairs_exact(labels, n);
        self.lemma_columns(labels, n);
        let f = |a: int, b: int| self.later_term(labels, a, b);
        crate::sums::lemma_swap(n, n, f);
        let rows = |a: int| sum(n, |b: int| self.later_term(labels, a, b));
        let rows2 = |a: int| sum(n, |b: int| f(a, b));
        assert forall|a: int| 0 <= a < n implies #[trigger] rows(a) == rows2(a) by {
            crate::sums::lemma_same(
                n,
                |b: int| self.later_term(labels, a, b),
                |b: int| f(a, b),
            );
        }
        crate::sums::lemma_same(n, rows, rows2);
        let columns = |b: int| sum(n, |a: int| self.later_term(labels, a, b));
        let columns2 = |b: int| sum(n, |a: int| f(a, b));
        assert forall|b: int| 0 <= b < n implies #[trigger] columns(b) == columns2(b) by {
            crate::sums::lemma_same(
                n,
                |a: int| self.later_term(labels, a, b),
                |a: int| f(a, b),
            );
        }
        crate::sums::lemma_same(n, columns, columns2);
        let q = self.modularity(labels).amount();
        let p = self.pairs_below(labels, n).amount();
        let m = self.exact_total();
        let u = pow2(149) as int;
        let e = self.exact_pairs(labels);
        assert(q * (2 * m * m) == u * e) by (nonlinear_arith)
            requires
                q * m == p * u,
                p * (2 * m) == e,
        {
            assert(q * (2 * m * m) == (q * m) * (2 * m));
            assert((p * u) * (2 * m) == u * (p * (2 * m)));
        }
    }

    /// Where computing them needs no rounding, modularities compare as in exact arithmetic.
    pub proof fn law_modularities_compare(
        self,
        first: Map<usize, CommunityId>,
        second: Map<usize, CommunityId>,
    )
        requires
            self.nodes.len() <= usize::MAX,
            self.measures_exactly(),
            self.modularity_is_exact(first),
            self.modularity_is_exact(second),
        ensures
            self.modularity(first).below(self.modularity(second)) <==> self.exact_pairs(first)
                < self.exact_pairs(second),
    {
        self.law_modularity_is_exact(first);
        self.law_modularity_is_exact(second);
        crate::binary32::lemma_one_and_two();
        let m = self.exact_total();
        let square = 2 * m * m;
        assert(square > 0) by (nonlinear_arith)
            requires
                m != 0,
                square == 2 * m * m,
        ;
        crate::exact_moves::lemma_scaled(
            self.modularity(first).amount(),
            self.modularity(second).amount(),
            self.exact_pairs(first),
            self.exact_pairs(second),
            square,
            pow2(149) as int,
        );
    }
}

impl<N, E> GraphView<N, E> {
    /// Where nothing that is computed rounds: a chosen move raises modularity, and no move
    /// to the community of a neighbour leads to a higher one.
    pub proof fn law_exact_choice(self, at: Progress, node: usize, local_move: LocalMove)
        requires
            self.wf(),
            self.nodes.len() <= usize::MAX,
            node < self.nodes.len(),
            at.labels.contains_key(node),
            self.measures_exactly(),
            self.tracks(at),
            self.computes_exactly(self.degrees(), at, node),
            self.chooses(self.degrees(), at, node, Some(local_move)),
            self.modularity_is_exact(at.labels),
            self.modularity_is_exact(at.labels.insert(node, local_move.community)),
        ensures
            local_move.node == node,
            local_move.community != at.labels[node],
            exists|neighbor: usize| #[trigger]
                self.adjacent(node, neighbor) && at.labels[neighbor] == local_move.community,
            self.modularity(at.labels).below(
                self.modularity(at.labels.insert(node, local_move.community)),
            ),
            forall|neighbor: usize| #[trigger]
                self.adjacent(node, neighbor) && self.modularity_is_exact(
                    at.labels.insert(node, at.labels[neighbor]),
                ) ==> !self.modularity(at.labels.insert(node, local_move.community)).below(
                    self.modularity(at.labels.insert(node, at.labels[neighbor])),
                ),
    {
        let degrees = self.degrees();
        assert(self.degree_is_exact(node));
        self.law_degree_is_exact(node);
        self.law_exact_operations_decide(degrees, at, node);
        self.law_choice_is_best(degrees, at, node, local_move);
        let best = at.labels.insert(node, local_move.community);
        self.law_modularities_compare(at.labels, best);
        assert forall|neighbor: usize| #[trigger]
            self.adjacent(node, neighbor) && self.modularity_is_exact(
                at.labels.insert(node, at.labels[neighbor]),
            ) implies !self.modularity(best).below(
            self.modularity(at.labels.insert(node, at.labels[neighbor])),
        ) by {
            self.law_modularities_compare(best, at.labels.insert(node, at.labels[neighbor]));
            assert(self.pairs_beside(at.labels, node, neighbor) <= self.exact_pairs(best));
        }
    }

    /// No move of `node` to the community of a neighbour raises modularity, as it is
    /// computed.
    pub open spec fn rests(self, labels: Map<usize, CommunityId>, node: usize) -> bool {
        forall|neighbor: usize| #[trigger]
            self.adjacent(node, neighbor) ==> !self.modularity(labels).below(
                self.modularity(labels.insert(node, labels[neighbor])),
            )
    }

    /// Computing the modularity of an assignment, and of those that a move of `node` to the
    /// community of a neighbour leads to, needs no rounding.
    pub open spec fn surroundings_are_exact(
        self,
        labels: Map<usize, CommunityId>,
        node: usize,
    ) -> bool {
        &&& self.modularity_is_exact(labels)
        &&& forall|neighbor: usize| #[trigger]
            self.adjacent(node, neighbor) ==> self.modularity_is_exact(
                labels.insert(node, labels[neighbor]),
            )
    }

    /// Where it is computed without rounding, modularity rests as in exact arithmetic.
    proof fn lemma_rests(self, labels: Map<usize, CommunityId>, node: usize)
        requires
            self.nodes.len() <= usize::MAX,
            self.measures_exactly(),
            self.surroundings_are_exact(labels, node),
        ensures
            self.rests(labels, node) <==> self.at_rest(labels, node),
    {
        assert forall|neighbor: usize| #[trigger] self.adjacent(node, neighbor) implies (
        self.modularity(labels).below(self.modularity(labels.insert(node, labels[neighbor])))
            <==> self.exact_pairs(labels) < self.pairs_beside(labels, node, neighbor)) by {
            self.law_modularities_compare(labels, labels.insert(node, labels[neighbor]));
        }
        if self.at_rest(labels, node) {
            assert forall|neighbor: usize| #[trigger]
                self.adjacent(node, neighbor) implies !self.modularity(labels).below(
                self.modularity(labels.insert(node, labels[neighbor])),
            ) by {
                assert(self.pairs_beside(labels, node, neighbor) <= self.exact_pairs(labels));
            }
        }
        if self.rests(labels, node) {
            assert forall|neighbor: usize| #[trigger]
                self.adjacent(node, neighbor) implies self.pairs_beside(labels, node, neighbor)
                <= self.exact_pairs(labels) by {}
        }
    }

    /// Where nothing that is computed rounds: a node chooses no move if and only if no move
    /// to the community of a neighbour raises modularity.
    pub proof fn law_exact_rest(self, at: Progress, node: usize)
        requires
            self.wf(),
            self.nodes.len() <= usize::MAX,
            node < self.nodes.len(),
            at.labels.contains_key(node),
            self.measures_exactly(),
            self.tracks(at),
            self.computes_exactly(self.degrees(), at, node),
            self.surroundings_are_exact(at.labels, node),
        ensures
            self.chooses(self.degrees(), at, node, None) <==> self.rests(at.labels, node),
    {
        let degrees = self.degrees();
        assert(self.degree_is_exact(node));
        self.law_degree_is_exact(node);
        self.law_exact_operations_decide(degrees, at, node);
        self.law_no_choice_is_rest(degrees, at, node);
        self.lemma_rests(at.labels, node);
    }

    /// Where nothing that is computed rounds: an optimization of few enough nodes to go in
    /// turn does not lower modularity, raises it if it changes anything, and, unless the
    /// count of sweeps has run out, ends in a local optimum.
    pub proof fn law_exact_optimization_raises<O: ModularityOptimizer>(
        self,
        start: Map<usize, CommunityId>,
        before: O,
        labels: Map<usize, CommunityId>,
        after: O,
        judges: Seq<&mut O>,
    )
        requires
            self.wf(),
            self.nodes.len() <= usize::MAX,
            self.assigns(start),
            self.optimized(start, before, labels, after, judges),
            forall|threshold: usize| #[trigger]
                call_ensures(O::get_parallel_threshold, (&before,), threshold)
                    ==> self.nodes.len() <= threshold,
            self.measures_exactly(),
            forall|from: Progress|
                from.labels == start && #[trigger] from.starts(self.degrees())
                    ==> self.runs_exactly(from),
            self.modularity_is_exact(start),
            self.modularity_is_exact(labels),
        ensures
            !self.modularity(labels).below(self.modularity(start)),
            labels != start ==> self.modularity(start).below(self.modularity(labels)),
            self.runs_out(start, labels) || forall|node: usize|
                node < self.nodes.len() && #[trigger] self.surroundings_are_exact(labels, node)
                    ==> self.rests(labels, node),
    {
        self.law_exact_optimization_is_optimal(start, before, labels, after, judges);
        self.law_modularities_compare(start, labels);
        self.law_modularities_compare(labels, start);
        if !self.runs_out(start, labels) {
            assert forall|node: usize|
                node < self.nodes.len() && #[trigger] self.surroundings_are_exact(
                    labels,
                    node,
                ) implies self.rests(labels, node) by {
                assert(self.at_rest(labels, node));
                self.lemma_rests(labels, node);
            }
        }
    }
}

} // verus!
