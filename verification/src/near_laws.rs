//! What is computed is near what exact arithmetic gives.
//!
//! The laws here hold of all graphs, whether or not anything rounds, as long as the result is
//! a finite number.

use crate::binary32::Binary32;
use crate::graph::GraphView;
use crate::moves::weight_or_zero;
use crate::rounding::{lemma_near_more, lemma_near_start, near, size};
use crate::sums::{only, sum};
use crate::tables::CommunityId;
use vstd::arithmetic::power2::pow2;
use vstd::prelude::*;

verus! {

impl<N, E> GraphView<N, E> {
    pub(crate) proof fn lemma_degree_near(self, a: usize, b: int)
        requires
            0 <= b <= self.nodes.len() <= usize::MAX,
            self.degree_below(a, b).finite(),
        ensures
            near(
                self.degree_below(a, b).amount(),
                sum(b, |i: int| self.exact_weight(a, i as usize)),
                sum(b, |i: int| size(self.exact_weight(a, i as usize))),
                b as nat,
            ),
            size(sum(b, |i: int| self.exact_weight(a, i as usize))) <= sum(
                b,
                |i: int| size(self.exact_weight(a, i as usize)),
            ),
        decreases b,
    {
        let w = |i: int| self.exact_weight(a, i as usize);
        let z = |i: int| size(self.exact_weight(a, i as usize));
        if b == 0 {
            crate::binary32::lemma_zero_amount();
            lemma_near_start(0, 0);
        } else {
            let last = (b - 1) as usize;
            let rest = self.degree_below(a, b - 1);
            if self.adjacent(a, last) {
                rest.lemma_finite_sum(self.weight(a, last));
                self.lemma_degree_near(a, b - 1);
                rest.lemma_near_sum(
                    sum(b - 1, w),
                    sum(b - 1, z),
                    (b - 1) as nat,
                    self.weight(a, last),
                );
            } else {
                self.lemma_degree_near(a, b - 1);
                lemma_near_more(
                    rest.amount(),
                    sum(b - 1, w),
                    sum(b - 1, z),
                    (b - 1) as nat,
                    sum(b - 1, z),
                    b as nat,
                );
            }
            assert(sum(b, w) == sum(b - 1, w) + w(b - 1));
            assert(sum(b, z) == sum(b - 1, z) + z(b - 1));
        }
    }

    /// The weighted degree of a node is near the sum of the weights of its edges and twice
    /// the weight inside it.
    pub proof fn law_degree_is_near(self, a: usize)
        requires
            a < self.nodes.len() <= usize::MAX,
            self.weighted_degree(a).finite(),
        ensures
            near(
                self.weighted_degree(a).amount(),
                sum(self.nodes.len() as int, |i: int| self.exact_weight(a, i as usize)) + 2
                    * self.inner[a as int].amount(),
                sum(self.nodes.len() as int, |i: int| size(self.exact_weight(a, i as usize))) + 2
                    * size(self.inner[a as int].amount()),
                self.nodes.len() + 1,
            ),
    {
        let n = self.nodes.len() as int;
        let inner = self.inner[a as int];
        let rest = self.degree_below(a, n);
        rest.lemma_finite_sum(inner.added(inner));
        inner.law_doubling_is_exact();
        self.lemma_degree_near(a, n);
        rest.lemma_near_sum(
            sum(n, |i: int| self.exact_weight(a, i as usize)),
            sum(n, |i: int| size(self.exact_weight(a, i as usize))),
            n as nat,
            inner.added(inner),
        );
    }

    /// The amount of the weight between `a` and `b`, if `b` is in community `c`.
    pub open spec fn link_to(
        self,
        labels: Map<usize, CommunityId>,
        a: usize,
        c: CommunityId,
        b: int,
    ) -> int {
        only(labels[b as usize] == c, self.exact_weight(a, b as usize))
    }

    pub(crate) proof fn lemma_links_near(
        self,
        labels: Map<usize, CommunityId>,
        a: usize,
        c: CommunityId,
        b: int,
    )
        requires
            0 <= b <= self.nodes.len() <= usize::MAX,
            weight_or_zero(self.weights_below(labels, a, b), c).finite(),
        ensures
            near(
                weight_or_zero(self.weights_below(labels, a, b), c).amount(),
                sum(b, |i: int| self.link_to(labels, a, c, i)),
                sum(b, |i: int| size(self.link_to(labels, a, c, i))),
                b as nat,
            ),
            size(sum(b, |i: int| self.link_to(labels, a, c, i))) <= sum(
                b,
                |i: int| size(self.link_to(labels, a, c, i)),
            ),
        decreases b,
    {
        let w = |i: int| self.link_to(labels, a, c, i);
        let z = |i: int| size(self.link_to(labels, a, c, i));
        if b == 0 {
            crate::binary32::lemma_zero_amount();
            lemma_near_start(0, 0);
        } else {
            let last = (b - 1) as usize;
            let rest = weight_or_zero(self.weights_below(labels, a, b - 1), c);
            if self.adjacent(a, last) && labels[last] == c {
                rest.lemma_finite_sum(self.weight(a, last));
                self.lemma_links_near(labels, a, c, b - 1);
                rest.lemma_near_sum(
                    sum(b - 1, w),
                    sum(b - 1, z),
                    (b - 1) as nat,
                    self.weight(a, last),
                );
            } else {
                assert(weight_or_zero(self.weights_below(labels, a, b), c) == rest);
                self.lemma_links_near(labels, a, c, b - 1);
                lemma_near_more(
                    rest.amount(),
                    sum(b - 1, w),
                    sum(b - 1, z),
                    (b - 1) as nat,
                    sum(b - 1, z),
                    b as nat,
                );
            }
            assert(sum(b, w) == sum(b - 1, w) + w(b - 1));
            assert(sum(b, z) == sum(b - 1, z) + z(b - 1));
        }
    }

    /// The weight from a node to a community is near the sum of the weights of its edges to
    /// the nodes of the community.
    pub proof fn law_links_are_near(
        self,
        labels: Map<usize, CommunityId>,
        a: usize,
        c: CommunityId,
    )
        requires
            self.nodes.len() <= usize::MAX,
            weight_or_zero(self.community_weights(labels, a), c).finite(),
        ensures
            near(
                weight_or_zero(self.community_weights(labels, a), c).amount(),
                sum(self.nodes.len() as int, |i: int| self.link_to(labels, a, c, i)),
                sum(self.nodes.len() as int, |i: int| size(self.link_to(labels, a, c, i))),
                self.nodes.len(),
            ),
    {
        self.lemma_links_near(labels, a, c, self.nodes.len() as int);
    }

    /// The amount that pair `a`, `b` contributes, if `a` comes first and both are in one
    /// community.
    pub open spec fn pair_amount(self, labels: Map<usize, CommunityId>, a: int, b: int) -> int {
        only(
            a < b && labels[a as usize] == labels[b as usize],
            self.pair_term(a as usize, b as usize).amount(),
        )
    }

    /// The amounts that the pairs of `a` with later nodes contribute.
    pub open spec fn row_amount(self, labels: Map<usize, CommunityId>, a: int) -> int {
        sum(self.nodes.len() as int, |b: int| self.pair_amount(labels, a, b))
    }

    /// The sizes of these amounts.
    pub open spec fn row_size(self, labels: Map<usize, CommunityId>, a: int) -> int {
        sum(self.nodes.len() as int, |b: int| size(self.pair_amount(labels, a, b)))
    }

    pub(crate) proof fn lemma_row_near(
        self,
        labels: Map<usize, CommunityId>,
        q: Binary32,
        exact: int,
        whole: int,
        steps: nat,
        i: int,
        j: int,
    )
        requires
            0 <= i < self.nodes.len() <= usize::MAX,
            0 <= j <= self.nodes.len(),
            self.with_pairs(labels, q, i, j).finite(),
            q.finite() ==> near(q.amount(), exact, whole, steps),
            size(exact) <= whole,
        ensures
            q.finite(),
            near(
                self.with_pairs(labels, q, i, j).amount(),
                exact + sum(j, |b: int| self.pair_amount(labels, i, b)),
                whole + sum(j, |b: int| size(self.pair_amount(labels, i, b))),
                steps + j as nat,
            ),
            size(exact + sum(j, |b: int| self.pair_amount(labels, i, b))) <= whole + sum(
                j,
                |b: int| size(self.pair_amount(labels, i, b)),
            ),
        decreases j,
    {
        let w = |b: int| self.pair_amount(labels, i, b);
        let z = |b: int| size(self.pair_amount(labels, i, b));
        if j > 0 {
            let rest = self.with_pairs(labels, q, i, j - 1);
            let term = self.pair_term(i as usize, (j - 1) as usize);
            if i + 1 < j && labels[i as usize] == labels[(j - 1) as usize] {
                rest.lemma_finite_sum(term);
                self.lemma_row_near(labels, q, exact, whole, steps, i, j - 1);
                rest.lemma_near_sum(
                    exact + sum(j - 1, w),
                    whole + sum(j - 1, z),
                    steps + (j - 1) as nat,
                    term,
                );
            } else {
                assert(self.with_pairs(labels, q, i, j) == rest);
                self.lemma_row_near(labels, q, exact, whole, steps, i, j - 1);
                lemma_near_more(
                    rest.amount(),
                    exact + sum(j - 1, w),
                    whole + sum(j - 1, z),
                    steps + (j - 1) as nat,
                    whole + sum(j - 1, z),
                    steps + j as nat,
                );
            }
            assert(sum(j, w) == sum(j - 1, w) + w(j - 1));
            assert(sum(j, z) == sum(j - 1, z) + z(j - 1));
        }
    }

    pub(crate) proof fn lemma_pairs_near(self, labels: Map<usize, CommunityId>, i: int)
        requires
            0 <= i <= self.nodes.len() <= usize::MAX,
            self.pairs_below(labels, i).finite(),
        ensures
            near(
                self.pairs_below(labels, i).amount(),
                sum(i, |a: int| self.row_amount(labels, a)),
                sum(i, |a: int| self.row_size(labels, a)),
                (i * self.nodes.len()) as nat,
            ),
            size(sum(i, |a: int| self.row_amount(labels, a))) <= sum(
                i,
                |a: int| self.row_size(labels, a),
            ),
        decreases i,
    {
        let n = self.nodes.len() as int;
        let w = |a: int| self.row_amount(labels, a);
        let z = |a: int| self.row_size(labels, a);
        if i == 0 {
            crate::binary32::lemma_zero_amount();
            lemma_near_start(0, 0);
        } else {
            let q = self.pairs_below(labels, i - 1);
            self.lemma_with_pairs_finite(labels, q, i - 1, n);
            self.lemma_pairs_near(labels, i - 1);
            assert(0 <= (i - 1) * n && (i - 1) * n + n == i * n) by (nonlinear_arith)
                requires
                    0 < i,
                    0 <= n,
            ;
            self.lemma_row_near(
                labels,
                q,
                sum(i - 1, w),
                sum(i - 1, z),
                ((i - 1) * n) as nat,
                i - 1,
                n,
            );
            assert(sum(i, w) == sum(i - 1, w) + w(i - 1));
            assert(sum(i, z) == sum(i - 1, z) + z(i - 1));
        }
    }

    proof fn lemma_with_pairs_finite(
        self,
        labels: Map<usize, CommunityId>,
        q: Binary32,
        i: int,
        j: int,
    )
        requires
            self.with_pairs(labels, q, i, j).finite(),
        ensures
            q.finite(),
        decreases j,
    {
        if i + 1 < j && 0 < j {
            let rest = self.with_pairs(labels, q, i, j - 1);
            if labels[i as usize] == labels[(j - 1) as usize] {
                rest.lemma_finite_sum(self.pair_term(i as usize, (j - 1) as usize));
            }
            self.lemma_with_pairs_finite(labels, q, i, j - 1);
        }
    }

    /// Modularity is near the sum of what the pairs in one community contribute, over the
    /// total weight: `total` is near that sum, and modularity is `total` over the total
    /// weight, off by at most one part in `2^24` and half of the smallest positive number.
    /// (One is `2^149` units.)
    pub proof fn law_modularity_is_near(self, labels: Map<usize, CommunityId>) -> (total: int)
        requires
            self.nodes.len() <= usize::MAX,
            self.total_weight.finite(),
            self.modularity(labels).finite(),
        ensures
            near(
                total,
                sum(self.nodes.len() as int, |a: int| self.row_amount(labels, a)),
                sum(self.nodes.len() as int, |a: int| self.row_size(labels, a)),
                self.nodes.len() * self.nodes.len(),
            ),
            0x100_0000 * size(
                self.modularity(labels).amount() * self.total_weight.amount() - total * pow2(149),
            ) <= size(total * pow2(149)) + 0x80_0000 * size(self.total_weight.amount()),
            self.total_weight.amount() != 0,
    {
        let n = self.nodes.len() as int;
        let pairs = self.pairs_below(labels, n);
        pairs.law_quotient_is_near(self.total_weight, pairs);
        self.lemma_pairs_near(labels, n);
        pairs.amount()
    }

    /// What a pair contributes is near the weight between the two nodes less the product of
    /// their weighted degrees over twice the total weight. (One is `2^149` units.)
    pub proof fn law_term_is_near(self, i: usize, j: usize)
        requires
            self.pair_term(i, j).finite(),
            self.total_weight.added(self.total_weight).finite(),
        ensures
            ({
                let m = self.total_weight.amount();
                let w = self.exact_weight(i, j);
                let k = self.weighted_degree(i).amount() * self.weighted_degree(j).amount();
                0x100_0000 * size(self.pair_term(i, j).amount() * (2 * m) - (2 * m * w - k)) <= 2
                    * size(m * w) + 8 * size(k) + 0x400_0000 * (size(m) + pow2(149))
            }),
    {
        let m = self.total_weight;
        let ki = self.weighted_degree(i);
        let kj = self.weighted_degree(j);
        let u = pow2(149) as int;
        m.law_doubling_is_exact();
        crate::binary32::lemma_one_and_two();
        if self.adjacent(i, j) {
            let w = self.weight(i, j);
            let p = ki.multiplied(kj);
            let q = p.divided(m.added(m));
            w.lemma_finite_sum(q.opposite());
            q.lemma_opposite_finite();
            w.law_difference_is_near(q, w);
            p.law_quotient_is_near(m.added(m), p);
            ki.law_product_is_near(kj, ki);
            lemma_term_bound(
                u,
                m.amount(),
                w.amount(),
                ki.amount() * kj.amount(),
                p.amount(),
                q.amount(),
                self.pair_term(i, j).amount(),
            );
        } else {
            let p = ki.opposite().multiplied(kj);
            let q = p.divided(m.added(m));
            ki.lemma_opposite();
            p.law_quotient_is_near(m.added(m), p);
            ki.opposite().law_product_is_near(kj, ki);
            let a = ki.amount();
            let b = kj.amount();
            assert((-a) * b == -(a * b)) by (nonlinear_arith);
            let pa = p.amount();
            let qa = q.amount();
            let m2 = 2 * m.amount();
            assert((-pa) * u == -(pa * u)) by (nonlinear_arith);
            assert((-qa) * m2 == -(qa * m2)) by (nonlinear_arith);
            lemma_term_bound(
                u,
                m.amount(),
                0,
                a * b,
                -p.amount(),
                -q.amount(),
                q.amount(),
            );
        }
    }
}

impl<N, E> GraphView<N, E> {
    /// Twice the total weight times what the pair `a`, `b` contributes in exact arithmetic on
    /// the weighted degrees and the total weight, if `a` comes first and both are in one
    /// community.
    pub open spec fn ideal_term(self, labels: Map<usize, CommunityId>, a: int, b: int) -> int {
        only(
            a < b && labels[a as usize] == labels[b as usize],
            2 * self.total_weight.amount() * self.exact_weight(a as usize, b as usize)
                - self.weighted_degree(a as usize).amount() * self.weighted_degree(
                b as usize,
            ).amount(),
        )
    }

    /// How far rounding can lead from that, times `2^24`.
    pub open spec fn term_slack(self, labels: Map<usize, CommunityId>, a: int, b: int) -> int {
        only(
            a < b && labels[a as usize] == labels[b as usize],
            2 * size(self.total_weight.amount() * self.exact_weight(a as usize, b as usize)) + 8
                * size(
                self.weighted_degree(a as usize).amount() * self.weighted_degree(
                    b as usize,
                ).amount(),
            ) + 0x400_0000 * (size(self.total_weight.amount()) + pow2(149)),
        )
    }

    /// These terms of the pairs of `a`, added up.
    pub open spec fn ideal_row(self, labels: Map<usize, CommunityId>, a: int) -> int {
        sum(self.nodes.len() as int, |b: int| self.ideal_term(labels, a, b))
    }

    /// How far rounding can lead from that, times `2^24`.
    pub open spec fn row_slack(self, labels: Map<usize, CommunityId>, a: int) -> int {
        sum(self.nodes.len() as int, |b: int| self.term_slack(labels, a, b))
    }

    proof fn lemma_row_ideal(self, labels: Map<usize, CommunityId>, a: int, j: int)
        requires
            0 <= j <= self.nodes.len() <= usize::MAX,
            0 <= a,
            self.total_weight.added(self.total_weight).finite(),
            forall|b: usize|
                a < b < j && labels[a as usize] == labels[b] ==> (#[trigger] self.pair_term(
                    a as usize,
                    b,
                )).finite(),
        ensures
            0x100_0000 * size(
                sum(j, |b: int| self.pair_amount(labels, a, b)) * (2 * self.total_weight.amount())
                    - sum(j, |b: int| self.ideal_term(labels, a, b)),
            ) <= sum(j, |b: int| self.term_slack(labels, a, b)),
        decreases j,
    {
        let m2 = 2 * self.total_weight.amount();
        let f = |b: int| self.pair_amount(labels, a, b);
        let g = |b: int| self.ideal_term(labels, a, b);
        let h = |b: int| self.term_slack(labels, a, b);
        if j > 0 {
            self.lemma_row_ideal(labels, a, j - 1);
            assert(sum(j, f) == sum(j - 1, f) + f(j - 1));
            assert(sum(j, g) == sum(j - 1, g) + g(j - 1));
            assert(sum(j, h) == sum(j - 1, h) + h(j - 1));
            let x = sum(j - 1, f);
            let y = f(j - 1);
            assert((x + y) * m2 == x * m2 + y * m2) by (nonlinear_arith);
            if a < j - 1 && labels[a as usize] == labels[(j - 1) as usize] {
                assert(self.pair_term(a as usize, (j - 1) as usize).finite());
                self.law_term_is_near(a as usize, (j - 1) as usize);
            } else {
                assert(0 * m2 == 0) by (nonlinear_arith);
            }
        } else {
            assert(0 * m2 == 0) by (nonlinear_arith);
        }
    }

    proof fn lemma_rows_ideal(self, labels: Map<usize, CommunityId>, i: int)
        requires
            0 <= i <= self.nodes.len() <= usize::MAX,
            self.total_weight.added(self.total_weight).finite(),
            forall|a: usize, b: usize|
                a < b < self.nodes.len() && labels[a] == labels[b] ==> (#[trigger] self.pair_term(
                    a,
                    b,
                )).finite(),
        ensures
            0x100_0000 * size(
                sum(i, |a: int| self.row_amount(labels, a)) * (2 * self.total_weight.amount())
                    - sum(i, |a: int| self.ideal_row(labels, a)),
            ) <= sum(i, |a: int| self.row_slack(labels, a)),
        decreases i,
    {
        let m2 = 2 * self.total_weight.amount();
        let f = |a: int| self.row_amount(labels, a);
        let g = |a: int| self.ideal_row(labels, a);
        let h = |a: int| self.row_slack(labels, a);
        if i > 0 {
            self.lemma_rows_ideal(labels, i - 1);
            assert forall|b: usize|
                i - 1 < b < self.nodes.len() && labels[(i - 1) as usize] == labels[b] implies (
            #[trigger] self.pair_term((i - 1) as usize, b)).finite() by {}
            self.lemma_row_ideal(labels, i - 1, self.nodes.len() as int);
            assert(sum(i, f) == sum(i - 1, f) + f(i - 1));
            assert(sum(i, g) == sum(i - 1, g) + g(i - 1));
            assert(sum(i, h) == sum(i - 1, h) + h(i - 1));
            let x = sum(i - 1, f);
            let y = f(i - 1);
            assert((x + y) * m2 == x * m2 + y * m2) by (nonlinear_arith);
        } else {
            assert(0 * m2 == 0) by (nonlinear_arith);
        }
    }

    /// Modularity is near what exact arithmetic gives on the weighted degrees and the total
    /// weight, however many nodes there are: each pair in one community contributes its
    /// term, rounded three times; their sum is rounded once for each; and the quotient once.
    /// (One is `2^149` units.)
    pub proof fn law_modularity_is_near_exact(self, labels: Map<usize, CommunityId>) -> (r: (
        int,
        int,
    ))
        requires
            self.nodes.len() <= usize::MAX,
            self.total_weight.added(self.total_weight).finite(),
            self.modularity(labels).finite(),
            forall|a: usize, b: usize|
                a < b < self.nodes.len() && labels[a] == labels[b] ==> (#[trigger] self.pair_term(
                    a,
                    b,
                )).finite(),
        ensures
            0x100_0000 * size(
                r.0 * (2 * self.total_weight.amount()) - sum(
                    self.nodes.len() as int,
                    |a: int| self.ideal_row(labels, a),
                ),
            ) <= sum(self.nodes.len() as int, |a: int| self.row_slack(labels, a)),
            near(
                r.1,
                r.0,
                sum(self.nodes.len() as int, |a: int| self.row_size(labels, a)),
                self.nodes.len() * self.nodes.len(),
            ),
            0x100_0000 * size(
                self.modularity(labels).amount() * self.total_weight.amount() - r.1 * pow2(149),
            ) <= size(r.1 * pow2(149)) + 0x80_0000 * size(self.total_weight.amount()),
            self.total_weight.amount() != 0,
    {
        let n = self.nodes.len() as int;
        self.total_weight.lemma_finite_sum(self.total_weight);
        let total = self.law_modularity_is_near(labels);
        self.lemma_rows_ideal(labels, n);
        (sum(n, |a: int| self.row_amount(labels, a)), total)
    }
}

impl Binary32 {
    pub(crate) proof fn lemma_opposite_finite(self)
        ensures
            self.opposite().finite() == self.finite(),
    {
    }
}

/// Three roundings: `p = k`, `q = p / (2 * m)`, `t = w - q`.
proof fn lemma_term_bound(u: int, m: int, w: int, k: int, p: int, q: int, t: int)
    requires
        u > 0,
        0x100_0000 * size(p * u - k) <= size(k) + 0x80_0000 * u,
        0x100_0000 * size(q * (2 * m) - p * u) <= size(p * u) + 0x80_0000 * size(2 * m),
        0x100_0000 * size(t - (w - q)) <= size(w - q),
    ensures
        0x100_0000 * size(t * (2 * m) - (2 * m * w - k)) <= 2 * size(m * w) + 8 * size(k)
            + 0x400_0000 * (size(m) + u),
{
    let x = t - (w - q);
    let m2 = 2 * m;
    // Times twice the total weight.
    assert(0x100_0000 * size(x * m2) <= size((w - q) * m2)) by {
        lemma_size_times(x, m2);
        lemma_size_times(w - q, m2);
        let a = size(x);
        let b = size(w - q);
        let c = size(m2);
        assert(0x100_0000 * (a * c) <= b * c) by (nonlinear_arith)
            requires
                0x100_0000 * a <= b,
                c >= 0,
        ;
    }
    assert((w - q) * m2 == w * m2 - q * m2) by (nonlinear_arith);
    assert(t * m2 == x * m2 + (w - q) * m2) by (nonlinear_arith)
        requires
            x == t - (w - q),
    ;
    assert(w * m2 == 2 * (m * w)) by (nonlinear_arith)
        requires
            m2 == 2 * m,
    ;
    assert(2 * m * w == 2 * (m * w)) by (nonlinear_arith);
}

/// The size of a product.
pub(crate) proof fn lemma_size_times(a: int, b: int)
    ensures
        size(a * b) == size(a) * size(b),
{
    assert((-a) * b == -(a * b)) by (nonlinear_arith);
    assert(a * (-b) == -(a * b)) by (nonlinear_arith);
    assert((-a) * (-b) == a * b) by (nonlinear_arith);
    assert(a >= 0 && b >= 0 ==> a * b >= 0) by (nonlinear_arith);
    assert(a <= 0 && b >= 0 ==> a * b <= 0) by (nonlinear_arith);
    assert(a >= 0 && b <= 0 ==> a * b <= 0) by (nonlinear_arith);
    assert(a <= 0 && b <= 0 ==> a * b >= 0) by (nonlinear_arith);
}

} // verus!
