//! What is computed is a finite number, unless the weights are so large that exact
//! arithmetic comes near the largest finite one.

use crate::binary32::Binary32;
use crate::graph::GraphView;
use crate::moves::weight_or_zero;
use crate::rounding::{fits, largest, lemma_fits_step, lemma_near_start, near, size};
use crate::sums::sum;
use crate::tables::CommunityId;
use vstd::arithmetic::power::pow;
use vstd::arithmetic::power2::pow2;
use vstd::prelude::*;

verus! {

/// A sum of fewer terms is no larger, where none is below zero.
pub(crate) proof fn lemma_prefix(b: int, n: int, f: spec_fn(int) -> int)
    requires
        0 <= b <= n,
        forall|i: int| 0 <= i < n ==> #[trigger] f(i) >= 0,
    ensures
        0 <= sum(b, f) <= sum(n, f),
    decreases n,
{
    if b < n {
        lemma_prefix(b, n - 1, f);
        assert(f(n - 1) >= 0);
    } else if 0 < n {
        lemma_prefix(n - 1, n - 1, f);
        assert(f(n - 1) >= 0);
    }
}

/// What fits is not beyond the largest finite number.
proof fn lemma_fits(x: int, all: int, limit: nat)
    requires
        size(x) <= all,
        fits(all, limit),
    ensures
        size(x) <= largest(),
{
    lemma_near_start(0, 0);
    lemma_fits_step(0, 0, 0, 0, x, all, limit);
}

impl<N, E> GraphView<N, E> {
    proof fn lemma_degree_finite(self, a: usize, b: int, all: int, limit: nat)
        requires
            0 <= b <= self.nodes.len() <= usize::MAX,
            b <= limit,
            forall|i: usize| #[trigger] self.adjacent(a, i) ==> self.weight(a, i).finite(),
            sum(b, |i: int| size(self.exact_weight(a, i as usize))) <= all,
            fits(all, limit),
        ensures
            self.degree_below(a, b).finite(),
        decreases b,
    {
        if 0 < b {
            let last = (b - 1) as usize;
            let rest = self.degree_below(a, b - 1);
            let w = |i: int| self.exact_weight(a, i as usize);
            let z = |i: int| size(self.exact_weight(a, i as usize));
            assert(sum(b, z) == sum(b - 1, z) + z(b - 1));
            self.lemma_degree_finite(a, b - 1, all, limit);
            self.lemma_degree_near(a, b - 1);
            if self.adjacent(a, last) {
                lemma_fits_step(
                    rest.amount(),
                    sum(b - 1, w),
                    sum(b - 1, z),
                    (b - 1) as nat,
                    self.weight(a, last).amount(),
                    all,
                    limit,
                );
                rest.law_sum_is_finite(self.weight(a, last));
            }
        }
    }

    /// The weighted degree of a node is finite.
    pub proof fn law_degree_is_finite(self, a: usize)
        requires
            a < self.nodes.len() <= usize::MAX,
            self.inner[a as int].finite(),
            forall|i: usize| #[trigger] self.adjacent(a, i) ==> self.weight(a, i).finite(),
            fits(
                sum(self.nodes.len() as int, |i: int| size(self.exact_weight(a, i as usize))) + 2
                    * size(self.inner[a as int].amount()),
                self.nodes.len() + 1,
            ),
        ensures
            self.weighted_degree(a).finite(),
    {
        let n = self.nodes.len() as int;
        let inner = self.inner[a as int];
        let w = |i: int| self.exact_weight(a, i as usize);
        let z = |i: int| size(self.exact_weight(a, i as usize));
        let all = sum(n, z) + 2 * size(inner.amount());
        lemma_prefix(n, n, z);
        self.lemma_degree_finite(a, n, all, (n + 1) as nat);
        self.lemma_degree_near(a, n);
        lemma_fits(inner.amount() + inner.amount(), all, (n + 1) as nat);
        inner.law_sum_is_finite(inner);
        inner.law_doubling_is_exact();
        let rest = self.degree_below(a, n);
        lemma_fits_step(
            rest.amount(),
            sum(n, w),
            sum(n, z),
            n as nat,
            inner.added(inner).amount(),
            all,
            (n + 1) as nat,
        );
        rest.law_sum_is_finite(inner.added(inner));
    }

    proof fn lemma_links_finite(
        self,
        labels: Map<usize, CommunityId>,
        a: usize,
        c: CommunityId,
        b: int,
        all: int,
        limit: nat,
    )
        requires
            0 <= b <= self.nodes.len() <= usize::MAX,
            b <= limit,
            forall|i: usize| #[trigger] self.adjacent(a, i) ==> self.weight(a, i).finite(),
            sum(b, |i: int| size(self.link_to(labels, a, c, i))) <= all,
            fits(all, limit),
        ensures
            weight_or_zero(self.weights_below(labels, a, b), c).finite(),
        decreases b,
    {
        if 0 < b {
            let last = (b - 1) as usize;
            let rest = weight_or_zero(self.weights_below(labels, a, b - 1), c);
            let w = |i: int| self.link_to(labels, a, c, i);
            let z = |i: int| size(self.link_to(labels, a, c, i));
            assert(sum(b, z) == sum(b - 1, z) + z(b - 1));
            self.lemma_links_finite(labels, a, c, b - 1, all, limit);
            self.lemma_links_near(labels, a, c, b - 1);
            if self.adjacent(a, last) && labels[last] == c {
                lemma_fits_step(
                    rest.amount(),
                    sum(b - 1, w),
                    sum(b - 1, z),
                    (b - 1) as nat,
                    self.weight(a, last).amount(),
                    all,
                    limit,
                );
                rest.law_sum_is_finite(self.weight(a, last));
            } else {
                assert(weight_or_zero(self.weights_below(labels, a, b), c) == rest);
            }
        }
    }

    /// The weight from a node to a community is finite.
    pub proof fn law_links_are_finite(
        self,
        labels: Map<usize, CommunityId>,
        a: usize,
        c: CommunityId,
    )
        requires
            self.nodes.len() <= usize::MAX,
            forall|i: usize| #[trigger] self.adjacent(a, i) ==> self.weight(a, i).finite(),
            fits(
                sum(self.nodes.len() as int, |i: int| size(self.link_to(labels, a, c, i))),
                self.nodes.len(),
            ),
        ensures
            weight_or_zero(self.community_weights(labels, a), c).finite(),
    {
        let n = self.nodes.len() as int;
        self.lemma_links_finite(
            labels,
            a,
            c,
            n,
            sum(n, |i: int| size(self.link_to(labels, a, c, i))),
            n as nat,
        );
    }

    proof fn lemma_row_finite(
        self,
        labels: Map<usize, CommunityId>,
        q: Binary32,
        exact: int,
        whole: int,
        steps: nat,
        i: int,
        j: int,
        all: int,
        limit: nat,
    )
        requires
            0 <= i < self.nodes.len() <= usize::MAX,
            0 <= j <= self.nodes.len(),
            q.finite(),
            near(q.amount(), exact, whole, steps),
            size(exact) <= whole,
            forall|b: usize|
                i < b < j && labels[i as usize] == labels[b] ==> (#[trigger] self.pair_term(
                    i as usize,
                    b,
                )).finite(),
            whole + sum(j, |b: int| size(self.pair_amount(labels, i, b))) <= all,
            steps + j <= limit,
            fits(all, limit),
        ensures
            self.with_pairs(labels, q, i, j).finite(),
        decreases j,
    {
        let w = |b: int| self.pair_amount(labels, i, b);
        let z = |b: int| size(self.pair_amount(labels, i, b));
        if i + 1 < j {
            let rest = self.with_pairs(labels, q, i, j - 1);
            let term = self.pair_term(i as usize, (j - 1) as usize);
            assert(sum(j, z) == sum(j - 1, z) + z(j - 1));
            self.lemma_row_finite(labels, q, exact, whole, steps, i, j - 1, all, limit);
            if labels[i as usize] == labels[(j - 1) as usize] {
                self.lemma_row_near(labels, q, exact, whole, steps, i, j - 1);
                lemma_fits_step(
                    rest.amount(),
                    exact + sum(j - 1, w),
                    whole + sum(j - 1, z),
                    steps + (j - 1) as nat,
                    term.amount(),
                    all,
                    limit,
                );
                rest.law_sum_is_finite(term);
            }
        }
    }

    proof fn lemma_pairs_finite(
        self,
        labels: Map<usize, CommunityId>,
        i: int,
        all: int,
        limit: nat,
    )
        requires
            0 <= i <= self.nodes.len() <= usize::MAX,
            forall|a: usize, b: usize|
                a < b < self.nodes.len() && labels[a] == labels[b] ==> (#[trigger] self.pair_term(
                    a,
                    b,
                )).finite(),
            sum(i, |a: int| self.row_size(labels, a)) <= all,
            i * self.nodes.len() <= limit,
            fits(all, limit),
        ensures
            self.pairs_below(labels, i).finite(),
        decreases i,
    {
        let n = self.nodes.len() as int;
        if 0 < i {
            let w = |a: int| self.row_amount(labels, a);
            let z = |a: int| self.row_size(labels, a);
            assert(sum(i, z) == sum(i - 1, z) + z(i - 1));
            lemma_prefix(n, n, |b: int| size(self.pair_amount(labels, i - 1, b)));
            assert(0 <= (i - 1) * n && (i - 1) * n + n == i * n) by (nonlinear_arith)
                requires
                    0 < i,
                    0 <= n,
            ;
            self.lemma_pairs_finite(labels, i - 1, all, limit);
            self.lemma_pairs_near(labels, i - 1);
            self.lemma_row_finite(
                labels,
                self.pairs_below(labels, i - 1),
                sum(i - 1, w),
                sum(i - 1, z),
                ((i - 1) * n) as nat,
                i - 1,
                n,
                all,
                limit,
            );
        }
    }

    /// Modularity is finite, where what the pairs contribute is, and where neither their sum
    /// nor the quotient of it and the total weight comes near the largest finite number.
    /// (One is `2^149` units.)
    pub proof fn law_modularity_is_finite(self, labels: Map<usize, CommunityId>)
        requires
            self.nodes.len() <= usize::MAX,
            self.total_weight.finite(),
            self.total_weight.amount() != 0,
            forall|a: usize, b: usize|
                a < b < self.nodes.len() && labels[a] == labels[b] ==> (#[trigger] self.pair_term(
                    a,
                    b,
                )).finite(),
            fits(
                sum(self.nodes.len() as int, |a: int| self.row_size(labels, a)),
                self.nodes.len() * self.nodes.len(),
            ),
            pow(0x100_0001, self.nodes.len() * self.nodes.len()) * (sum(
                self.nodes.len() as int,
                |a: int| self.row_size(labels, a),
            ) * pow2(149)) <= pow(0x100_0000, self.nodes.len() * self.nodes.len()) * (largest()
                * size(self.total_weight.amount())),
        ensures
            self.modularity(labels).finite(),
    {
        let n = self.nodes.len() as int;
        let limit = self.nodes.len() * self.nodes.len();
        let w = |a: int| self.row_amount(labels, a);
        let z = |a: int| self.row_size(labels, a);
        let all = sum(n, z);
        self.lemma_pairs_finite(labels, n, all, limit);
        self.lemma_pairs_near(labels, n);
        let pairs = self.pairs_below(labels, n);
        let s = pairs.amount();
        let u = pow2(149) as int;
        let m = size(self.total_weight.amount());
        crate::binary32::lemma_one_and_two();
        crate::near_laws::lemma_size_times(s, u);
        crate::rounding::lemma_found_size(s, sum(n, w), all, limit);
        let p = pow(0x100_0000, limit);
        let q = pow(0x100_0001, limit);
        let l = largest();
        assert(size(s) * u <= l * m) by (nonlinear_arith)
            requires
                p * size(s) <= q * all,
                q * (all * u) <= p * (l * m),
                p > 0,
                u > 0,
        {
            assert(p * (size(s) * u) == (p * size(s)) * u);
            assert((p * size(s)) * u <= (q * all) * u);
            assert((q * all) * u == q * (all * u));
            assert(p * (size(s) * u) <= p * (l * m));
        }
        pairs.law_quotient_is_finite(self.total_weight);
    }

    /// What a pair contributes is finite, where the product of the weighted degrees, the
    /// product over twice the total weight, and the weight are within a quarter of the
    /// largest finite number. (One is `2^149` units.)
    pub proof fn law_term_is_finite(self, i: usize, j: usize)
        requires
            self.weighted_degree(i).finite(),
            self.weighted_degree(j).finite(),
            self.total_weight.added(self.total_weight).finite(),
            self.total_weight.amount() != 0,
            self.adjacent(i, j) ==> self.weight(i, j).finite(),
            4 * size(self.exact_weight(i, j)) <= largest(),
            4 * size(self.weighted_degree(i).amount() * self.weighted_degree(j).amount()) + 4
                * pow2(149) <= largest() * pow2(149),
            4 * size(self.weighted_degree(i).amount() * self.weighted_degree(j).amount()) + 4
                * pow2(149) <= largest() * size(self.total_weight.amount()),
        ensures
            self.pair_term(i, j).finite(),
    {
        let ki = self.weighted_degree(i);
        let kj = self.weighted_degree(j);
        let m = self.total_weight;
        let u = pow2(149) as int;
        crate::binary32::lemma_one_and_two();
        m.law_doubling_is_exact();
        let first = if self.adjacent(i, j) {
            ki
        } else {
            ki.opposite()
        };
        ki.lemma_opposite();
        ki.lemma_opposite_finite();
        let a = ki.amount();
        let b = kj.amount();
        assert((-a) * b == -(a * b)) by (nonlinear_arith);
        first.law_product_is_finite(kj);
        first.law_product_is_near(kj, first);
        let p = first.multiplied(kj);
        assert(size(p.amount() * u) <= 2 * size(a * b) + u);
        let m2 = m.added(m);
        let l = largest();
        let mm = size(m.amount());
        assert(l * (2 * mm) == 2 * (l * mm)) by (nonlinear_arith);
        p.law_quotient_is_finite(m2);
        p.law_quotient_is_near(m2, p);
        let q = p.divided(m2);
        if self.adjacent(i, j) {
            let qa = size(q.amount());
            crate::near_laws::lemma_size_times(q.amount(), m2.amount());
            let k = size(a * b);
            let x = qa * mm;
            assert(qa * (2 * mm) == 2 * x) by (nonlinear_arith)
                requires
                    x == qa * mm,
            ;
            assert(4 * x <= 3 * (2 * k + u) + 2 * mm);
            crate::rounding::lemma_largest();
            assert(l * mm >= 4 * mm) by (nonlinear_arith)
                requires
                    l >= 4,
                    mm >= 0,
            ;
            assert(2 * x <= l * mm);
            assert(2 * qa <= l) by (nonlinear_arith)
                requires
                    2 * (qa * mm) <= l * mm,
                    mm > 0,
            ;
            self.weight(i, j).law_difference_is_finite(q);
        }
    }
}

} // verus!
