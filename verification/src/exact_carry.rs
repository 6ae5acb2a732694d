//! Making a graph of communities carries all weight along.

use crate::binary32::Binary32;
use crate::community::Community;
use crate::graph::GraphView;
use vstd::prelude::*;

verus! {

/// The amount of a weight, if there is one.
pub open spec fn amount_or_zero(weight: Option<Binary32>) -> int {
    match weight {
        None => 0,
        Some(weight) => weight.amount(),
    }
}

impl<N, E> GraphView<N, E> {
    /// Adding up the weights between the sets, and inside them, needs no rounding.
    pub open spec fn carried_unrounded(self, parts: Seq<Set<usize>>) -> bool {
        let n = self.nodes.len() as int;
        &&& forall|x: usize, y: usize, i: int, b: int|
            0 <= i < b < n && x < parts.len() && y < parts.len() && x != y && self.meets(
                parts,
                i as usize,
                b as usize,
                x,
                y,
            ) ==> (match #[trigger] self.crossing(parts, x, y, i, b) {
                None => true,
                Some(sum) => crate::graph_laws::adds_exactly(
                    sum,
                    self.weight(i as usize, b as usize),
                ),
            })
        &&& forall|x: usize, i: int|
            0 <= i < n && x < parts.len() && parts[x as int].contains(i as usize)
                ==> crate::graph_laws::adds_exactly(
                #[trigger] self.inside(parts, x, i - 1, n),
                self.inner[i],
            )
        &&& forall|x: usize, i: int, b: int|
            0 <= i < b < n && x < parts.len() && parts[x as int].contains(i as usize)
                && parts[x as int].contains(b as usize) && self.adjacent(i as usize, b as usize)
                ==> crate::graph_laws::adds_exactly(
                #[trigger] self.inside(parts, x, i, b),
                self.weight(i as usize, b as usize),
            )
    }

    /// The amount of the weight between `a` and the later node `b`, if it joins the sets
    /// `x` and `y`.
    pub open spec fn crossing_term(
        self,
        parts: Seq<Set<usize>>,
        x: usize,
        y: usize,
        a: int,
        b: int,
    ) -> int {
        crate::sums::only(
            a < b && self.meets(parts, a as usize, b as usize, x, y),
            self.exact_weight(a as usize, b as usize),
        )
    }

    /// The same, for all later nodes.
    pub open spec fn crossing_row(self, parts: Seq<Set<usize>>, x: usize, y: usize, a: int) -> int {
        crate::sums::sum(
            self.nodes.len() as int,
            |b: int| self.crossing_term(parts, x, y, a, b),
        )
    }

    proof fn lemma_crossing(
        self,
        parts: Seq<Set<usize>>,
        x: usize,
        y: usize,
        i: int,
        b: int,
    )
        requires
            self.carried_unrounded(parts),
            x < parts.len(),
            y < parts.len(),
            x != y,
            -1 <= i < self.nodes.len(),
            0 <= b <= self.nodes.len(),
            i < 0 ==> b == self.nodes.len(),
        ensures
            0 <= i ==> amount_or_zero(self.crossing(parts, x, y, i, b)) == crate::sums::sum(
                i,
                |a: int| self.crossing_row(parts, x, y, a),
            ) + crate::sums::sum(b, |c: int| self.crossing_term(parts, x, y, i, c)),
            i < 0 ==> amount_or_zero(self.crossing(parts, x, y, i, b)) == 0,
        decreases i + 1, b,
    {
        let n = self.nodes.len() as int;
        if 0 <= i {
            let terms = |c: int| self.crossing_term(parts, x, y, i, c);
            let rows = |a: int| self.crossing_row(parts, x, y, a);
            if b <= i + 1 {
                self.lemma_crossing(parts, x, y, i - 1, n);
                crate::sums::lemma_zero(b, terms);
                if 0 < i {
                    assert(crate::sums::sum(i, rows) == crate::sums::sum(i - 1, rows) + rows(i - 1));
                } else {
                    assert(crate::sums::sum(i, rows) == 0);
                }
            } else {
                let rest = self.crossing(parts, x, y, i, b - 1);
                self.lemma_crossing(parts, x, y, i, b - 1);
                assert(crate::sums::sum(b, terms) == crate::sums::sum(b - 1, terms) + terms(b - 1));
                if self.meets(parts, i as usize, (b - 1) as usize, x, y) {
                    assert(self.adjacent(i as usize, (b - 1) as usize));
                    let _ = self.crossing(parts, x, y, i, b - 1);
                }
            }
        }
    }

    /// The amount of the weight between `a` and the later node `b`, if both are in set `x`.
    pub open spec fn inside_term(self, parts: Seq<Set<usize>>, x: usize, a: int, b: int) -> int {
        crate::sums::only(
            a < b && parts[x as int].contains(a as usize) && parts[x as int].contains(b as usize),
            self.exact_weight(a as usize, b as usize),
        )
    }

    /// The same, for all later nodes.
    pub open spec fn inside_row(self, parts: Seq<Set<usize>>, x: usize, a: int) -> int {
        crate::sums::sum(self.nodes.len() as int, |b: int| self.inside_term(parts, x, a, b))
    }

    /// The amount of the weight inside `a`, if it is in set `x`.
    pub open spec fn inside_own(self, parts: Seq<Set<usize>>, x: usize, a: int) -> int {
        crate::sums::only(parts[x as int].contains(a as usize), self.inner[a].amount())
    }

    proof fn lemma_inside(self, parts: Seq<Set<usize>>, x: usize, i: int, b: int)
        requires
            self.carried_unrounded(parts),
            x < parts.len(),
            -1 <= i < self.nodes.len(),
            0 <= b <= self.nodes.len(),
            i < 0 ==> b == self.nodes.len(),
        ensures
            0 <= i ==> self.inside(parts, x, i, b).amount() == crate::sums::sum(
                i + 1,
                |a: int| self.inside_own(parts, x, a),
            ) + crate::sums::sum(i, |a: int| self.inside_row(parts, x, a)) + crate::sums::sum(
                b,
                |c: int| self.inside_term(parts, x, i, c),
            ),
            i < 0 ==> self.inside(parts, x, i, b).amount() == 0,
        decreases i + 1, b,
    {
        let n = self.nodes.len() as int;
        crate::binary32::lemma_zero_amount();
        if 0 <= i {
            let terms = |c: int| self.inside_term(parts, x, i, c);
            let rows = |a: int| self.inside_row(parts, x, a);
            let own = |a: int| self.inside_own(parts, x, a);
            if b <= i + 1 {
                self.lemma_inside(parts, x, i - 1, n);
                crate::sums::lemma_zero(b, terms);
                assert(crate::sums::sum(i + 1, own) == crate::sums::sum(i, own) + own(i));
                if 0 < i {
                    assert(crate::sums::sum(i, rows) == crate::sums::sum(i - 1, rows) + rows(i - 1));
                } else {
                    assert(crate::sums::sum(i, rows) == 0);
                    assert(crate::sums::sum(i, own) == 0);
                }
                let _ = self.inside(parts, x, i - 1, n);
            } else {
                self.lemma_inside(parts, x, i, b - 1);
                assert(crate::sums::sum(b, terms) == crate::sums::sum(b - 1, terms) + terms(b - 1));
                let _ = self.inside(parts, x, i, b - 1);
            }
        }
    }

    /// The weight between `a` and `b`, if they are in the sets.
    spec fn pair_in(
        self,
        first: Set<usize>,
        second: Set<usize>,
        a: int,
        b: int,
    ) -> int {
        crate::sums::only(
            first.contains(a as usize) && second.contains(b as usize),
            self.exact_weight(a as usize, b as usize),
        )
    }

    /// A block as a sum over all pairs.
    proof fn lemma_block(self, parts: Seq<Set<usize>>, x: int, y: int)
        ensures
            crate::exact_levels::block(
                self.nodes.len() as int,
                parts,
                x,
                y,
                |a: int, b: int| self.exact_weight(a as usize, b as usize),
            ) == crate::sums::sum(
                self.nodes.len() as int,
                |a: int|
                    crate::sums::sum(
                        self.nodes.len() as int,
                        |b: int| self.pair_in(parts[x], parts[y], a, b),
                    ),
            ),
    {
        let n = self.nodes.len() as int;
        let w = |a: int, b: int| self.exact_weight(a as usize, b as usize);
        let inner = |a: int| crate::sums::sum_in(n, parts[y], |b: int| w(a, b));
        let left = |a: int| crate::sums::only(parts[x].contains(a as usize), inner(a));
        let right = |a: int|
            crate::sums::sum(n, |b: int| self.pair_in(parts[x], parts[y], a, b));
        assert forall|a: int| 0 <= a < n implies #[trigger] left(a) == right(a) by {
            let pairs = |b: int| self.pair_in(parts[x], parts[y], a, b);
            if parts[x].contains(a as usize) {
                let wa = |b: int| w(a, b);
                let members = |b: int| crate::sums::only(parts[y].contains(b as usize), wa(b));
                assert forall|b: int| 0 <= b < n implies #[trigger] members(b) == pairs(b) by {}
                crate::sums::lemma_same(n, members, pairs);
            } else {
                crate::sums::lemma_zero(n, pairs);
            }
        }
        crate::sums::lemma_same(n, left, right);
    }

    /// A sum over all pairs, by the order of the two nodes, where a node has nothing with
    /// itself.
    proof fn lemma_by_order(
        n: int,
        f: spec_fn(int, int) -> int,
        g: spec_fn(int, int) -> int,
    )
        requires
            forall|a: int| 0 <= a < n ==> #[trigger] f(a, a) == 0,
            forall|a: int, b: int|
                0 <= a < n && 0 <= b < n ==> #[trigger] g(a, b) == crate::sums::only(
                    a < b,
                    f(a, b) + f(b, a),
                ),
        ensures
            crate::sums::sum(n, |a: int| crate::sums::sum(n, |b: int| f(a, b)))
                == crate::sums::sum(n, |a: int| crate::sums::sum(n, |b: int| g(a, b))),
    {
        let up = |a: int, b: int| crate::sums::only(a < b, f(a, b));
        let down = |a: int, b: int| crate::sums::only(b < a, f(a, b));
        let turned = |a: int, b: int| crate::sums::only(a < b, f(b, a));
        let all = |a: int| crate::sums::sum(n, |b: int| f(a, b));
        let ups = |a: int| crate::sums::sum(n, |b: int| up(a, b));
        let downs = |a: int| crate::sums::sum(n, |b: int| down(a, b));
        let turns = |a: int| crate::sums::sum(n, |b: int| turned(a, b));
        let gs = |a: int| crate::sums::sum(n, |b: int| g(a, b));
        let both = |a: int| ups(a) + downs(a);
        let goal = |a: int| ups(a) + turns(a);
        assert forall|a: int| 0 <= a < n implies #[trigger] all(a) == both(a) by {
            let ua = |b: int| up(a, b);
            let da = |b: int| down(a, b);
            let fa = |b: int| f(a, b);
            let sa = |b: int| ua(b) + da(b);
            crate::sums::lemma_plus(n, ua, da);
            assert forall|b: int| 0 <= b < n implies #[trigger] fa(b) == sa(b) by {
                if a == b {
                    assert(f(a, a) == 0);
                }
            }
            crate::sums::lemma_same(n, fa, sa);
        }
        crate::sums::lemma_same(n, all, both);
        crate::sums::lemma_plus(n, ups, downs);
        crate::sums::lemma_swap(n, n, down);
        let flipped = |b: int| crate::sums::sum(n, |a: int| down(a, b));
        assert forall|b: int| 0 <= b < n implies #[trigger] flipped(b) == turns(b) by {
            let da = |a: int| down(a, b);
            let ta = |a: int| turned(b, a);
            assert forall|a: int| 0 <= a < n implies #[trigger] da(a) == ta(a) by {}
            crate::sums::lemma_same(n, da, ta);
        }
        crate::sums::lemma_same(n, flipped, turns);
        crate::sums::lemma_plus(n, ups, turns);
        assert forall|a: int| 0 <= a < n implies #[trigger] gs(a) == goal(a) by {
            let ua = |b: int| up(a, b);
            let ta = |b: int| turned(a, b);
            let ga = |b: int| g(a, b);
            let sa = |b: int| ua(b) + ta(b);
            crate::sums::lemma_plus(n, ua, ta);
            assert forall|b: int| 0 <= b < n implies #[trigger] ga(b) == sa(b) by {
                assert(g(a, b) == crate::sums::only(a < b, f(a, b) + f(b, a)));
            }
            crate::sums::lemma_same(n, ga, sa);
        }
        crate::sums::lemma_same(n, gs, goal);
    }

    /// What the edges between two sets weigh together.
    proof fn lemma_carry_between(self, parts: Seq<Set<usize>>, x: usize, y: usize)
        requires
            self.wf(),
            self.nodes.len() <= usize::MAX,
            crate::refine::partitions(parts, crate::refine::numbers(self.nodes.len())),
            self.carried_unrounded(parts),
            x < parts.len(),
            y < parts.len(),
            x != y,
        ensures
            amount_or_zero(
                self.crossing(
                    parts,
                    x,
                    y,
                    self.nodes.len() - 1,
                    self.nodes.len() as int,
                ),
            ) == crate::exact_levels::block(
                self.nodes.len() as int,
                parts,
                x as int,
                y as int,
                |a: int, b: int| self.exact_weight(a as usize, b as usize),
            ),
    {
        let n = self.nodes.len() as int;
        let f = |a: int, b: int| self.pair_in(parts[x as int], parts[y as int], a, b);
        let g = |a: int, b: int| self.crossing_term(parts, x, y, a, b);
        assert(parts[x as int].disjoint(parts[y as int]));
        assert forall|a: int| 0 <= a < n implies #[trigger] f(a, a) == 0 by {}
        assert forall|a: int, b: int| 0 <= a < n && 0 <= b < n implies #[trigger] g(a, b)
            == crate::sums::only(a < b, f(a, b) + f(b, a)) by {
            self.lemma_term_symmetric(a as usize, b as usize);
        }
        Self::lemma_by_order(n, f, g);
        self.lemma_block(parts, x as int, y as int);
        let fs = |a: int| crate::sums::sum(n, |b: int| f(a, b));
        let pairs = |a: int|
            crate::sums::sum(
                n,
                |b: int| self.pair_in(parts[x as int], parts[y as int], a, b),
            );
        assert forall|a: int| 0 <= a < n implies #[trigger] fs(a) == pairs(a) by {
            crate::sums::lemma_same(
                n,
                |b: int| f(a, b),
                |b: int| self.pair_in(parts[x as int], parts[y as int], a, b),
            );
        }
        crate::sums::lemma_same(n, fs, pairs);
        let gs = |a: int| crate::sums::sum(n, |b: int| g(a, b));
        let rows = |a: int| self.crossing_row(parts, x, y, a);
        assert forall|a: int| 0 <= a < n implies #[trigger] gs(a) == rows(a) by {
            crate::sums::lemma_same(
                n,
                |b: int| g(a, b),
                |b: int| self.crossing_term(parts, x, y, a, b),
            );
        }
        crate::sums::lemma_same(n, gs, rows);
        self.lemma_crossing(parts, x, y, n - 1, n);
        if 0 < n {
            assert(crate::sums::sum(n, rows) == crate::sums::sum(n - 1, rows) + rows(n - 1));
        }
    }

    /// What the edges within a set, and what is inside its nodes, weigh together.
    proof fn lemma_carry_inside(self, parts: Seq<Set<usize>>, x: usize)
        requires
            self.wf(),
            self.nodes.len() <= usize::MAX,
            self.carried_unrounded(parts),
            x < parts.len(),
        ensures
            2 * self.inside(
                parts,
                x,
                self.nodes.len() - 1,
                self.nodes.len() as int,
            ).amount() == crate::sums::sum_in(
                self.nodes.len() as int,
                parts[x as int],
                |a: int|
                    2 * self.inner[a].amount() + crate::sums::sum_in(
                        self.nodes.len() as int,
                        parts[x as int],
                        |b: int| self.exact_weight(a as usize, b as usize),
                    ),
            ),
    {
        let n = self.nodes.len() as int;
        let part = parts[x as int];
        let f = |a: int, b: int| self.pair_in(part, part, a, b);
        let h = |a: int, b: int| self.inside_term(parts, x, a, b);
        let g = |a: int, b: int| 2 * h(a, b);
        assert forall|a: int| 0 <= a < n implies #[trigger] f(a, a) == 0 by {
            if self.adjacent(a as usize, a as usize) {
                assert(self.ids.contains_key((a as usize, a as usize)));
            }
        }
        assert forall|a: int, b: int| 0 <= a < n && 0 <= b < n implies #[trigger] g(a, b)
            == crate::sums::only(a < b, f(a, b) + f(b, a)) by {
            self.lemma_term_symmetric(a as usize, b as usize);
        }
        Self::lemma_by_order(n, f, g);
        // Twice the rows.
        let rows = |a: int| self.inside_row(parts, x, a);
        let twice = |a: int| 2 * rows(a);
        let gs = |a: int| crate::sums::sum(n, |b: int| g(a, b));
        assert forall|a: int| 0 <= a < n implies #[trigger] gs(a) == twice(a) by {
            let terms = |b: int| self.inside_term(parts, x, a, b);
            crate::sums::lemma_times(n, 2, terms);
            let doubled = |b: int| 2 * terms(b);
            let ga = |b: int| g(a, b);
            assert forall|b: int| 0 <= b < n implies #[trigger] ga(b) == doubled(b) by {}
            crate::sums::lemma_same(n, ga, doubled);
        }
        crate::sums::lemma_same(n, gs, twice);
        crate::sums::lemma_times(n, 2, rows);
        // Twice what is inside the nodes.
        let own = |a: int| self.inside_own(parts, x, a);
        crate::sums::lemma_times(n, 2, own);
        let doubled_own = |a: int| 2 * own(a);
        let fs = |a: int| crate::sums::sum(n, |b: int| f(a, b));
        crate::sums::lemma_plus(n, doubled_own, fs);
        let sum = |a: int| doubled_own(a) + fs(a);
        let given = |a: int|
            2 * self.inner[a].amount() + crate::sums::sum_in(
                n,
                part,
                |b: int| self.exact_weight(a as usize, b as usize),
            );
        let wanted = |a: int| crate::sums::only(part.contains(a as usize), given(a));
        assert forall|a: int| 0 <= a < n implies #[trigger] sum(a) == wanted(a) by {
            let fa = |b: int| f(a, b);
            if part.contains(a as usize) {
                let w = |b: int| self.exact_weight(a as usize, b as usize);
                let members = |b: int| crate::sums::only(part.contains(b as usize), w(b));
                assert forall|b: int| 0 <= b < n implies #[trigger] fa(b) == members(b) by {}
                crate::sums::lemma_same(n, fa, members);
            } else {
                crate::sums::lemma_zero(n, fa);
            }
        }
        crate::sums::lemma_same(n, sum, wanted);
        self.lemma_inside(parts, x, n - 1, n);
        if 0 < n {
            assert(crate::sums::sum(n, rows) == crate::sums::sum(n - 1, rows) + rows(n - 1));
        } else {
            crate::binary32::lemma_zero_amount();
        }
    }

    /// The graph of the communities that a partition makes carries all weight along, where
    /// adding it up needs no rounding.
    pub proof fn law_bridging_carries(self, parts: Seq<Set<usize>>, nodes: Seq<Community>)
        requires
            self.wf(),
            self.nodes.len() <= usize::MAX,
            nodes.len() == parts.len(),
            crate::refine::partitions(parts, crate::refine::numbers(self.nodes.len())),
            self.bridged(parts, nodes).edges.len() <= usize::MAX,
            self.carried_unrounded(parts),
        ensures
            self.bridged(parts, nodes).wf(),
            self.carries_exactly(parts, self.bridged(parts, nodes)),
    {
        let made = self.bridged(parts, nodes);
        let n = self.nodes.len() as int;
        crate::refine::lemma_numbers(self.nodes.len());
        crate::refine::lemma_partition_size(parts, crate::refine::numbers(self.nodes.len()));
        self.lemma_carried(parts, nodes, n);
        assert forall|x: int, y: int|
            0 <= x < parts.len() && 0 <= y < parts.len() && x != y
                implies #[trigger] made.exact_weight(x as usize, y as usize)
            == crate::exact_levels::block(
            n,
            parts,
            x,
            y,
            |a: int, b: int| self.exact_weight(a as usize, b as usize),
        ) by {
            self.law_weight_is_carried(parts, nodes, x as usize, y as usize);
            self.lemma_carry_between(parts, x as usize, y as usize);
        }
        assert forall|x: int| 0 <= x < parts.len() implies 2 * (#[trigger] made.inner[x]).amount()
            == crate::sums::sum_in(
            n,
            parts[x],
            |a: int|
                2 * self.inner[a].amount() + crate::sums::sum_in(
                    n,
                    parts[x],
                    |b: int| self.exact_weight(a as usize, b as usize),
                ),
        ) by {
            self.lemma_carry_inside(parts, x as usize);
            let number = x as usize;
            assert(made.inner[number as int] == self.inside(parts, number, n - 1, n));
        }
    }
}

} // verus!
