//! What a graph of communities weighs is near what its edges do.

use crate::binary32::Binary32;
use crate::community::Community;
use crate::exact_carry::amount_or_zero;
use crate::graph::GraphView;
use crate::rounding::{
    fits, lemma_fits_step, lemma_near_more, lemma_near_start, lemma_near_step, near, size,
};
use crate::sums::sum;
use vstd::prelude::*;

verus! {

/// A weight that is there is finite.
pub open spec fn finite_or_none(weight: Option<Binary32>) -> bool {
    match weight {
        None => true,
        Some(weight) => weight.finite(),
    }
}

impl<N, E> GraphView<N, E> {
    /// The sizes of the weights between the sets, of the edges from `a` to later nodes.
    pub open spec fn crossing_row_size(
        self,
        parts: Seq<Set<usize>>,
        x: usize,
        y: usize,
        a: int,
    ) -> int {
        sum(self.nodes.len() as int, |b: int| size(self.crossing_term(parts, x, y, a, b)))
    }

    /// The sizes of the weights within a set, of the edges from `a` to later nodes.
    pub open spec fn inside_row_size(self, parts: Seq<Set<usize>>, x: usize, a: int) -> int {
        sum(self.nodes.len() as int, |b: int| size(self.inside_term(parts, x, a, b)))
    }

    proof fn lemma_crossing_near(
        self,
        parts: Seq<Set<usize>>,
        x: usize,
        y: usize,
        i: int,
        b: int,
    )
        requires
            x < parts.len(),
            y < parts.len(),
            x != y,
            -1 <= i < self.nodes.len() <= usize::MAX,
            0 <= b <= self.nodes.len(),
            i < 0 ==> b == self.nodes.len(),
            finite_or_none(self.crossing(parts, x, y, i, b)),
        ensures
            i < 0 ==> amount_or_zero(self.crossing(parts, x, y, i, b)) == 0,
            0 <= i ==> near(
                amount_or_zero(self.crossing(parts, x, y, i, b)),
                sum(i, |a: int| self.crossing_row(parts, x, y, a)) + sum(
                    b,
                    |c: int| self.crossing_term(parts, x, y, i, c),
                ),
                sum(i, |a: int| self.crossing_row_size(parts, x, y, a)) + sum(
                    b,
                    |c: int| size(self.crossing_term(parts, x, y, i, c)),
                ),
                (i * self.nodes.len() + b) as nat,
            ),
            0 <= i ==> size(
                sum(i, |a: int| self.crossing_row(parts, x, y, a)) + sum(
                    b,
                    |c: int| self.crossing_term(parts, x, y, i, c),
                ),
            ) <= sum(i, |a: int| self.crossing_row_size(parts, x, y, a)) + sum(
                b,
                |c: int| size(self.crossing_term(parts, x, y, i, c)),
            ),
        decreases i + 1, b,
    {
        let n = self.nodes.len() as int;
        if 0 <= i {
            let terms = |c: int| self.crossing_term(parts, x, y, i, c);
            let sizes = |c: int| size(self.crossing_term(parts, x, y, i, c));
            let rows = |a: int| self.crossing_row(parts, x, y, a);
            let row_sizes = |a: int| self.crossing_row_size(parts, x, y, a);
            assert(0 <= i * n) by (nonlinear_arith)
                requires
                    0 <= i,
                    0 <= n,
            ;
            if b <= i + 1 {
                self.lemma_crossing_near(parts, x, y, i - 1, n);
                crate::sums::lemma_zero(b, terms);
                crate::sums::lemma_zero(b, sizes);
                let found = amount_or_zero(self.crossing(parts, x, y, i - 1, n));
                if 0 < i {
                    assert((i - 1) * n + n == i * n) by (nonlinear_arith);
                    let before = |c: int| self.crossing_term(parts, x, y, i - 1, c);
                    let before_sizes = |c: int| size(self.crossing_term(parts, x, y, i - 1, c));
                    assert(sum(i, rows) == sum(i - 1, rows) + rows(i - 1));
                    assert(sum(i, row_sizes) == sum(i - 1, row_sizes) + row_sizes(i - 1));
                    assert(rows(i - 1) == sum(n, before));
                    assert(row_sizes(i - 1) == sum(n, before_sizes));
                    lemma_near_more(
                        found,
                        sum(i, rows),
                        sum(i, row_sizes),
                        (i * n) as nat,
                        sum(i, row_sizes),
                        (i * n + b) as nat,
                    );
                } else {
                    assert(sum(i, rows) == 0 && sum(i, row_sizes) == 0);
                    lemma_near_start(0, 0);
                    lemma_near_more(0, 0, 0, 0, 0, (i * n + b) as nat);
                }
            } else {
                let rest = self.crossing(parts, x, y, i, b - 1);
                let node = i as usize;
                let last = (b - 1) as usize;
                assert(sum(b, terms) == sum(b - 1, terms) + terms(b - 1));
                assert(sum(b, sizes) == sum(b - 1, sizes) + sizes(b - 1));
                let steps = (i * n + (b - 1)) as nat;
                let exact = sum(i, rows) + sum(b - 1, terms);
                let whole = sum(i, row_sizes) + sum(b - 1, sizes);
                if self.meets(parts, node, last, x, y) {
                    let weight = self.weight(node, last);
                    assert(self.adjacent(node, last));
                    if let Some(w) = rest {
                        w.lemma_finite_sum(weight);
                        self.lemma_crossing_near(parts, x, y, i, b - 1);
                        w.lemma_near_sum(exact, whole, steps, weight);
                    } else {
                        self.lemma_crossing_near(parts, x, y, i, b - 1);
                        lemma_near_step(
                            0,
                            exact,
                            whole,
                            steps,
                            weight.amount(),
                            weight.amount(),
                        );
                    }
                } else {
                    self.lemma_crossing_near(parts, x, y, i, b - 1);
                    lemma_near_more(
                        amount_or_zero(rest),
                        exact,
                        whole,
                        steps,
                        whole,
                        steps + 1,
                    );
                }
            }
        }
    }

    proof fn lemma_crossing_finite(
        self,
        parts: Seq<Set<usize>>,
        x: usize,
        y: usize,
        i: int,
        b: int,
        all: int,
        limit: nat,
    )
        requires
            x < parts.len(),
            y < parts.len(),
            x != y,
            -1 <= i < self.nodes.len() <= usize::MAX,
            0 <= b <= self.nodes.len(),
            i < 0 ==> b == self.nodes.len(),
            forall|c: usize, d: usize| #[trigger]
                self.adjacent(c, d) ==> self.weight(c, d).finite(),
            0 <= i ==> sum(i, |a: int| self.crossing_row_size(parts, x, y, a)) + sum(
                b,
                |c: int| size(self.crossing_term(parts, x, y, i, c)),
            ) <= all,
            i * self.nodes.len() + b <= limit,
            fits(all, limit),
        ensures
            finite_or_none(self.crossing(parts, x, y, i, b)),
        decreases i + 1, b,
    {
        let n = self.nodes.len() as int;
        if 0 <= i {
            let terms = |c: int| self.crossing_term(parts, x, y, i, c);
            let sizes = |c: int| size(self.crossing_term(parts, x, y, i, c));
            let rows = |a: int| self.crossing_row(parts, x, y, a);
            let row_sizes = |a: int| self.crossing_row_size(parts, x, y, a);
            assert((i - 1) * n + n == i * n) by (nonlinear_arith);
            assert(0 <= i * n) by (nonlinear_arith)
                requires
                    0 <= i,
                    0 <= n,
            ;
            if b <= i + 1 {
                crate::sums::lemma_zero(b, sizes);
                if 0 < i {
                    let before_sizes = |c: int| size(self.crossing_term(parts, x, y, i - 1, c));
                    assert(sum(i, row_sizes) == sum(i - 1, row_sizes) + row_sizes(i - 1));
                    assert(row_sizes(i - 1) == sum(n, before_sizes));
                }
                self.lemma_crossing_finite(parts, x, y, i - 1, n, all, limit);
            } else {
                let rest = self.crossing(parts, x, y, i, b - 1);
                let node = i as usize;
                let last = (b - 1) as usize;
                assert(sum(b, sizes) == sum(b - 1, sizes) + sizes(b - 1));
                self.lemma_crossing_finite(parts, x, y, i, b - 1, all, limit);
                if self.meets(parts, node, last, x, y) {
                    let weight = self.weight(node, last);
                    assert(self.adjacent(node, last));
                    if let Some(w) = rest {
                        self.lemma_crossing_near(parts, x, y, i, b - 1);
                        lemma_fits_step(
                            w.amount(),
                            sum(i, rows) + sum(b - 1, terms),
                            sum(i, row_sizes) + sum(b - 1, sizes),
                            (i * n + (b - 1)) as nat,
                            weight.amount(),
                            all,
                            limit,
                        );
                        w.law_sum_is_finite(weight);
                    }
                }
            }
        }
    }

    /// The weight between two communities is near the sum of the weights of the edges that
    /// join them, and it is finite unless the sum comes near the largest finite number.
    pub proof fn law_weight_between_is_near(
        self,
        parts: Seq<Set<usize>>,
        nodes: Seq<Community>,
        x: usize,
        y: usize,
    )
        requires
            self.wf(),
            self.nodes.len() <= usize::MAX,
            nodes.len() == parts.len(),
            crate::refine::partitions(parts, crate::refine::numbers(self.nodes.len())),
            self.bridged(parts, nodes).edges.len() <= usize::MAX,
            x < parts.len(),
            y < parts.len(),
            x != y,
        ensures
            finite_or_none(
                crate::compress_laws::edge_weight(self.bridged(parts, nodes), x, y),
            ) ==> near(
                self.bridged(parts, nodes).exact_weight(x, y),
                sum(self.nodes.len() as int, |a: int| self.crossing_row(parts, x, y, a)),
                sum(self.nodes.len() as int, |a: int| self.crossing_row_size(parts, x, y, a)),
                self.nodes.len() * self.nodes.len(),
            ),
            (forall|c: usize, d: usize| #[trigger]
                self.adjacent(c, d) ==> self.weight(c, d).finite()) && fits(
                sum(self.nodes.len() as int, |a: int| self.crossing_row_size(parts, x, y, a)),
                self.nodes.len() * self.nodes.len(),
            ) ==> finite_or_none(
                crate::compress_laws::edge_weight(self.bridged(parts, nodes), x, y),
            ),
    {
        let n = self.nodes.len() as int;
        let made = self.bridged(parts, nodes);
        self.law_weight_is_carried(parts, nodes, x, y);
        let rows = |a: int| self.crossing_row(parts, x, y, a);
        let row_sizes = |a: int| self.crossing_row_size(parts, x, y, a);
        assert(amount_or_zero(crate::compress_laws::edge_weight(made, x, y)) == made.exact_weight(
            x,
            y,
        ));
        crate::refine::lemma_numbers(self.nodes.len());
        crate::refine::lemma_partition_size(parts, crate::refine::numbers(self.nodes.len()));
        assert(0 < n);
        assert((n - 1) * n + n == n * n) by (nonlinear_arith);
        let terms = |c: int| self.crossing_term(parts, x, y, n - 1, c);
        let sizes = |c: int| size(self.crossing_term(parts, x, y, n - 1, c));
        assert(sum(n, rows) == sum(n - 1, rows) + rows(n - 1));
        assert(sum(n, row_sizes) == sum(n - 1, row_sizes) + row_sizes(n - 1));
        assert(rows(n - 1) == sum(n, terms));
        assert(row_sizes(n - 1) == sum(n, sizes));
        if finite_or_none(self.crossing(parts, x, y, n - 1, n)) {
            self.lemma_crossing_near(parts, x, y, n - 1, n);
        }
        if (forall|c: usize, d: usize| #[trigger]
            self.adjacent(c, d) ==> self.weight(c, d).finite()) && fits(
            sum(n, row_sizes),
            self.nodes.len() * self.nodes.len(),
        ) {
            self.lemma_crossing_finite(
                parts,
                x,
                y,
                n - 1,
                n,
                sum(n, row_sizes),
                self.nodes.len() * self.nodes.len(),
            );
        }
    }

    proof fn lemma_inside_near(self, parts: Seq<Set<usize>>, x: usize, i: int, b: int)
        requires
            x < parts.len(),
            -1 <= i < self.nodes.len() <= usize::MAX,
            0 <= b <= self.nodes.len(),
            i < 0 ==> b == self.nodes.len(),
            self.inside(parts, x, i, b).finite(),
        ensures
            i < 0 ==> self.inside(parts, x, i, b).amount() == 0,
            0 <= i ==> near(
                self.inside(parts, x, i, b).amount(),
                sum(i + 1, |a: int| self.inside_own(parts, x, a)) + sum(
                    i,
                    |a: int| self.inside_row(parts, x, a),
                ) + sum(b, |c: int| self.inside_term(parts, x, i, c)),
                sum(i + 1, |a: int| size(self.inside_own(parts, x, a))) + sum(
                    i,
                    |a: int| self.inside_row_size(parts, x, a),
                ) + sum(b, |c: int| size(self.inside_term(parts, x, i, c))),
                (i * self.nodes.len() + i + 1 + b) as nat,
            ),
            0 <= i ==> size(
                sum(i + 1, |a: int| self.inside_own(parts, x, a)) + sum(
                    i,
                    |a: int| self.inside_row(parts, x, a),
                ) + sum(b, |c: int| self.inside_term(parts, x, i, c)),
            ) <= sum(i + 1, |a: int| size(self.inside_own(parts, x, a))) + sum(
                i,
                |a: int| self.inside_row_size(parts, x, a),
            ) + sum(b, |c: int| size(self.inside_term(parts, x, i, c))),
        decreases i + 1, b,
    {
        let n = self.nodes.len() as int;
        crate::binary32::lemma_zero_amount();
        if 0 <= i {
            let terms = |c: int| self.inside_term(parts, x, i, c);
            let sizes = |c: int| size(self.inside_term(parts, x, i, c));
            let rows = |a: int| self.inside_row(parts, x, a);
            let row_sizes = |a: int| self.inside_row_size(parts, x, a);
            let own = |a: int| self.inside_own(parts, x, a);
            let own_sizes = |a: int| size(self.inside_own(parts, x, a));
            assert(0 <= i * n) by (nonlinear_arith)
                requires
                    0 <= i,
                    0 <= n,
            ;
            if b <= i + 1 {
                let rest = self.inside(parts, x, i - 1, n);
                let held = parts[x as int].contains(i as usize);
                if held {
                    rest.lemma_finite_sum(self.inner[i]);
                }
                self.lemma_inside_near(parts, x, i - 1, n);
                crate::sums::lemma_zero(b, terms);
                crate::sums::lemma_zero(b, sizes);
                assert(sum(i + 1, own) == sum(i, own) + own(i));
                assert(sum(i + 1, own_sizes) == sum(i, own_sizes) + own_sizes(i));
                let exact = sum(i, own) + sum(i, rows);
                let whole = sum(i, own_sizes) + sum(i, row_sizes);
                let steps = (i * n + i) as nat;
                if 0 < i {
                    assert((i - 1) * n + n == i * n) by (nonlinear_arith);
                    let before = |c: int| self.inside_term(parts, x, i - 1, c);
                    let before_sizes = |c: int| size(self.inside_term(parts, x, i - 1, c));
                    assert(sum(i, rows) == sum(i - 1, rows) + rows(i - 1));
                    assert(sum(i, row_sizes) == sum(i - 1, row_sizes) + row_sizes(i - 1));
                    assert(rows(i - 1) == sum(n, before));
                    assert(row_sizes(i - 1) == sum(n, before_sizes));
                } else {
                    assert(sum(i, rows) == 0 && sum(i, row_sizes) == 0);
                    assert(sum(i, own) == 0 && sum(i, own_sizes) == 0);
                    lemma_near_start(0, 0);
                }
                assert(near(rest.amount(), exact, whole, steps));
                if held {
                    rest.lemma_near_sum(exact, whole, steps, self.inner[i]);
                    lemma_near_more(
                        rest.added(self.inner[i]).amount(),
                        exact + own(i),
                        whole + own_sizes(i),
                        steps + 1,
                        whole + own_sizes(i),
                        (i * n + i + 1 + b) as nat,
                    );
                } else {
                    lemma_near_more(
                        rest.amount(),
                        exact,
                        whole,
                        steps,
                        whole,
                        (i * n + i + 1 + b) as nat,
                    );
                }
            } else {
                let rest = self.inside(parts, x, i, b - 1);
                let node = i as usize;
                let last = (b - 1) as usize;
                assert(sum(b, terms) == sum(b - 1, terms) + terms(b - 1));
                assert(sum(b, sizes) == sum(b - 1, sizes) + sizes(b - 1));
                let steps = (i * n + i + 1 + (b - 1)) as nat;
                let exact = sum(i + 1, own) + sum(i, rows) + sum(b - 1, terms);
                let whole = sum(i + 1, own_sizes) + sum(i, row_sizes) + sum(b - 1, sizes);
                if self.adjacent(node, last) && parts[x as int].contains(node)
                    && parts[x as int].contains(last) {
                    rest.lemma_finite_sum(self.weight(node, last));
                    self.lemma_inside_near(parts, x, i, b - 1);
                    rest.lemma_near_sum(exact, whole, steps, self.weight(node, last));
                } else {
                    self.lemma_inside_near(parts, x, i, b - 1);
                    lemma_near_more(rest.amount(), exact, whole, steps, whole, steps + 1);
                }
            }
        }
    }

    proof fn lemma_inside_finite(
        self,
        parts: Seq<Set<usize>>,
        x: usize,
        i: int,
        b: int,
        all: int,
        limit: nat,
    )
        requires
            x < parts.len(),
            -1 <= i < self.nodes.len() <= usize::MAX,
            0 <= b <= self.nodes.len(),
            i < 0 ==> b == self.nodes.len(),
            forall|c: usize, d: usize| #[trigger]
                self.adjacent(c, d) ==> self.weight(c, d).finite(),
            forall|a: int| 0 <= a < self.nodes.len() ==> (#[trigger] self.inner[a]).finite(),
            0 <= i ==> sum(i + 1, |a: int| size(self.inside_own(parts, x, a))) + sum(
                i,
                |a: int| self.inside_row_size(parts, x, a),
            ) + sum(b, |c: int| size(self.inside_term(parts, x, i, c))) <= all,
            i * self.nodes.len() + i + 1 + b <= limit,
            fits(all, limit),
        ensures
            self.inside(parts, x, i, b).finite(),
        decreases i + 1, b,
    {
        let n = self.nodes.len() as int;
        if 0 <= i {
            let terms = |c: int| self.inside_term(parts, x, i, c);
            let sizes = |c: int| size(self.inside_term(parts, x, i, c));
            let rows = |a: int| self.inside_row(parts, x, a);
            let row_sizes = |a: int| self.inside_row_size(parts, x, a);
            let own = |a: int| self.inside_own(parts, x, a);
            let own_sizes = |a: int| size(self.inside_own(parts, x, a));
            assert((i - 1) * n + n == i * n) by (nonlinear_arith);
            assert(0 <= i * n) by (nonlinear_arith)
                requires
                    0 <= i,
                    0 <= n,
            ;
            if b <= i + 1 {
                let rest = self.inside(parts, x, i - 1, n);
                crate::sums::lemma_zero(b, sizes);
                assert(sum(i + 1, own_sizes) == sum(i, own_sizes) + own_sizes(i));
                assert(sum(i + 1, own) == sum(i, own) + own(i));
                if 0 < i {
                    let before = |c: int| self.inside_term(parts, x, i - 1, c);
                    let before_sizes = |c: int| size(self.inside_term(parts, x, i - 1, c));
                    assert(sum(i, rows) == sum(i - 1, rows) + rows(i - 1));
                    assert(sum(i, row_sizes) == sum(i - 1, row_sizes) + row_sizes(i - 1));
                    assert(rows(i - 1) == sum(n, before));
                    assert(row_sizes(i - 1) == sum(n, before_sizes));
                } else {
                    assert(sum(i, rows) == 0 && sum(i, row_sizes) == 0);
                    assert(sum(i, own) == 0 && sum(i, own_sizes) == 0);
                    lemma_near_start(0, 0);
                    crate::binary32::lemma_zero_amount();
                }
                self.lemma_inside_finite(parts, x, i - 1, n, all, limit);
                self.lemma_inside_near(parts, x, i - 1, n);
                assert(self.inner[i].finite());
                if parts[x as int].contains(i as usize) {
                    lemma_fits_step(
                        rest.amount(),
                        sum(i, own) + sum(i, rows),
                        sum(i, own_sizes) + sum(i, row_sizes),
                        (i * n + i) as nat,
                        self.inner[i].amount(),
                        all,
                        limit,
                    );
                    rest.law_sum_is_finite(self.inner[i]);
                }
            } else {
                let rest = self.inside(parts, x, i, b - 1);
                let node = i as usize;
                let last = (b - 1) as usize;
                assert(sum(b, sizes) == sum(b - 1, sizes) + sizes(b - 1));
                self.lemma_inside_finite(parts, x, i, b - 1, all, limit);
                if self.adjacent(node, last) && parts[x as int].contains(node)
                    && parts[x as int].contains(last) {
                    self.lemma_inside_near(parts, x, i, b - 1);
                    lemma_fits_step(
                        rest.amount(),
                        sum(i + 1, own) + sum(i, rows) + sum(b - 1, terms),
                        sum(i + 1, own_sizes) + sum(i, row_sizes) + sum(b - 1, sizes),
                        (i * n + i + 1 + (b - 1)) as nat,
                        self.weight(node, last).amount(),
                        all,
                        limit,
                    );
                    rest.law_sum_is_finite(self.weight(node, last));
                }
            }
        }
    }

    /// The weight inside a community is near the sum of the weights of the edges within it
    /// and of those inside its nodes, and it is finite unless the sum comes near the largest
    /// finite number.
    pub proof fn law_weight_inside_is_near(
        self,
        parts: Seq<Set<usize>>,
        nodes: Seq<Community>,
        x: usize,
    )
        requires
            self.wf(),
            self.nodes.len() <= usize::MAX,
            nodes.len() == parts.len(),
            crate::refine::partitions(parts, crate::refine::numbers(self.nodes.len())),
            self.bridged(parts, nodes).edges.len() <= usize::MAX,
            x < parts.len(),
        ensures
            self.bridged(parts, nodes).inner[x as int].finite() ==> near(
                self.bridged(parts, nodes).inner[x as int].amount(),
                sum(self.nodes.len() as int, |a: int| self.inside_own(parts, x, a)) + sum(
                    self.nodes.len() as int,
                    |a: int| self.inside_row(parts, x, a),
                ),
                sum(self.nodes.len() as int, |a: int| size(self.inside_own(parts, x, a))) + sum(
                    self.nodes.len() as int,
                    |a: int| self.inside_row_size(parts, x, a),
                ),
                self.nodes.len() * self.nodes.len() + self.nodes.len(),
            ),
            (forall|c: usize, d: usize| #[trigger]
                self.adjacent(c, d) ==> self.weight(c, d).finite()) && (forall|a: int|
                0 <= a < self.nodes.len() ==> (#[trigger] self.inner[a]).finite()) && fits(
                sum(self.nodes.len() as int, |a: int| size(self.inside_own(parts, x, a))) + sum(
                    self.nodes.len() as int,
                    |a: int| self.inside_row_size(parts, x, a),
                ),
                self.nodes.len() * self.nodes.len() + self.nodes.len(),
            ) ==> self.bridged(parts, nodes).inner[x as int].finite(),
    {
        let n = self.nodes.len() as int;
        let made = self.bridged(parts, nodes);
        self.lemma_carried(parts, nodes, n);
        assert(made.inner[x as int] == self.inside(parts, x, n - 1, n));
        crate::refine::lemma_numbers(self.nodes.len());
        crate::refine::lemma_partition_size(parts, crate::refine::numbers(self.nodes.len()));
        assert(0 < n);
        assert((n - 1) * n + n == n * n) by (nonlinear_arith);
        let own = |a: int| self.inside_own(parts, x, a);
        let own_sizes = |a: int| size(self.inside_own(parts, x, a));
        let rows = |a: int| self.inside_row(parts, x, a);
        let row_sizes = |a: int| self.inside_row_size(parts, x, a);
        let terms = |c: int| self.inside_term(parts, x, n - 1, c);
        let sizes = |c: int| size(self.inside_term(parts, x, n - 1, c));
        assert(sum(n, rows) == sum(n - 1, rows) + rows(n - 1));
        assert(sum(n, row_sizes) == sum(n - 1, row_sizes) + row_sizes(n - 1));
        assert(rows(n - 1) == sum(n, terms));
        assert(row_sizes(n - 1) == sum(n, sizes));
        let limit = self.nodes.len() * self.nodes.len() + self.nodes.len();
        if self.inside(parts, x, n - 1, n).finite() {
            self.lemma_inside_near(parts, x, n - 1, n);
        }
        if (forall|c: usize, d: usize| #[trigger]
            self.adjacent(c, d) ==> self.weight(c, d).finite()) && (forall|a: int|
            0 <= a < self.nodes.len() ==> (#[trigger] self.inner[a]).finite()) && fits(
            sum(n, own_sizes) + sum(n, row_sizes),
            limit,
        ) {
            self.lemma_inside_finite(
                parts,
                x,
                n - 1,
                n,
                sum(n, own_sizes) + sum(n, row_sizes),
                limit,
            );
        }
    }
}

} // verus!
