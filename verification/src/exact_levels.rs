//! Modularity is the same on every level.
//!
//! Where the weight inside communities is carried along without rounding, moving
//! communities changes the modularity of the graph of communities by as much as it
//! changes that of the graph they are made of.

use crate::binary32::Binary32;
use crate::community::Community;
use crate::graph::{EdgeInfo, GraphView};
use crate::tables::CommunityId;
use vstd::prelude::*;

verus! {

/// The assignment of nodes that an assignment of their sets means.
pub open spec fn lifted(
    parts: Seq<Set<usize>>,
    labels: Map<usize, CommunityId>,
    n: nat,
) -> Map<usize, CommunityId> {
    Map::new(
        |node: usize| node < n,
        |node: usize| labels[crate::compress::place(parts, node) as usize],
    )
}

/// The sum over the pairs of a member of set `x` and a member of set `y`.
pub open spec fn block(
    n: int,
    parts: Seq<Set<usize>>,
    x: int,
    y: int,
    f: spec_fn(int, int) -> int,
) -> int {
    crate::sums::sum_in(
        n,
        parts[x],
        |a: int| crate::sums::sum_in(n, parts[y], |b: int| f(a, b)),
    )
}

/// Equal terms have equal sums over a set.
pub(crate) proof fn lemma_same_in(
    n: int,
    part: Set<usize>,
    f: spec_fn(int) -> int,
    g: spec_fn(int) -> int,
)
    requires
        forall|a: int| 0 <= a < n && part.contains(a as usize) ==> #[trigger] f(a) == g(a),
    ensures
        crate::sums::sum_in(n, part, f) == crate::sums::sum_in(n, part, g),
{
    let left = |a: int| crate::sums::only(part.contains(a as usize), f(a));
    let right = |a: int| crate::sums::only(part.contains(a as usize), g(a));
    assert forall|a: int| 0 <= a < n implies #[trigger] left(a) == right(a) by {
        if part.contains(a as usize) {
            assert(f(a) == g(a));
        }
    }
    crate::sums::lemma_same(n, left, right);
}

/// Equal terms have equal sums over a block.
proof fn lemma_same_block(
    n: int,
    parts: Seq<Set<usize>>,
    x: int,
    y: int,
    f: spec_fn(int, int) -> int,
    g: spec_fn(int, int) -> int,
)
    requires
        forall|a: int, b: int|
            0 <= a < n && 0 <= b < n && parts[x].contains(a as usize) && parts[y].contains(
                b as usize,
            ) ==> #[trigger] f(a, b) == g(a, b),
    ensures
        block(n, parts, x, y, f) == block(n, parts, x, y, g),
{
    let left = |a: int| crate::sums::sum_in(n, parts[y], |b: int| f(a, b));
    let right = |a: int| crate::sums::sum_in(n, parts[y], |b: int| g(a, b));
    assert forall|a: int| 0 <= a < n && parts[x].contains(a as usize) implies #[trigger] left(a)
        == right(a) by {
        let fa = |b: int| f(a, b);
        let ga = |b: int| g(a, b);
        assert forall|b: int| 0 <= b < n && parts[y].contains(b as usize) implies #[trigger] fa(b)
            == ga(b) by {
            assert(f(a, b) == g(a, b));
        }
        lemma_same_in(n, parts[y], fa, ga);
    }
    lemma_same_in(n, parts[x], left, right);
}

/// Sums over a set are added term by term.
proof fn lemma_plus_in(n: int, part: Set<usize>, f: spec_fn(int) -> int, g: spec_fn(int) -> int)
    ensures
        crate::sums::sum_in(n, part, |a: int| f(a) + g(a)) == crate::sums::sum_in(n, part, f)
            + crate::sums::sum_in(n, part, g),
{
    let fi = |a: int| crate::sums::only(part.contains(a as usize), f(a));
    let gi = |a: int| crate::sums::only(part.contains(a as usize), g(a));
    crate::sums::lemma_plus(n, fi, gi);
    let both = |a: int| fi(a) + gi(a);
    let h = |a: int| f(a) + g(a);
    let hi = |a: int| crate::sums::only(part.contains(a as usize), h(a));
    assert forall|a: int| 0 <= a < n implies #[trigger] both(a) == hi(a) by {}
    crate::sums::lemma_same(n, both, hi);
}

/// A factor can be taken out of a sum over a set.
proof fn lemma_times_in(n: int, part: Set<usize>, c: int, f: spec_fn(int) -> int)
    ensures
        crate::sums::sum_in(n, part, |a: int| c * f(a)) == c * crate::sums::sum_in(n, part, f),
{
    let fi = |a: int| crate::sums::only(part.contains(a as usize), f(a));
    crate::sums::lemma_times(n, c, fi);
    let scaled = |a: int| c * fi(a);
    let h = |a: int| c * f(a);
    let hi = |a: int| crate::sums::only(part.contains(a as usize), h(a));
    assert forall|a: int| 0 <= a < n implies #[trigger] scaled(a) == hi(a) by {
        assert(c * 0 == 0) by (nonlinear_arith);
    }
    crate::sums::lemma_same(n, scaled, hi);
}

/// The amounts of edges, as a sum over their numbers.
proof fn lemma_edge_sum<E>(edges: Seq<EdgeInfo<E>>, m: int)
    requires
        0 <= m <= edges.len(),
    ensures
        crate::sums::sum(m, |k: int| edges[k].weight.amount()) == crate::exact::edge_amounts(
            edges.take(m),
        ),
        m == edges.len() ==> edges.take(m) == edges,
    decreases m,
{
    assert(edges.take(edges.len() as int) =~= edges);
    if 0 < m {
        lemma_edge_sum(edges, m - 1);
        assert(edges.take(m).drop_last() =~= edges.take(m - 1));
    }
}

/// The amounts of weights, as a sum over their places.
pub(crate) proof fn lemma_inner_sum(weights: Seq<Binary32>, m: int)
    requires
        0 <= m <= weights.len(),
    ensures
        crate::sums::sum(m, |a: int| weights[a].amount()) == crate::exact::amounts(
            weights.take(m),
        ),
        m == weights.len() ==> weights.take(m) == weights,
    decreases m,
{
    assert(weights.take(weights.len() as int) =~= weights);
    if 0 < m {
        lemma_inner_sum(weights, m - 1);
        assert(weights.take(m).drop_last() =~= weights.take(m - 1));
    }
}

impl<N, E> GraphView<N, E> {
    /// The amount of the weight between `a` and `b`; the weight inside a node counts from
    /// both ends.
    pub open spec fn full_weight(self, a: int, b: int) -> int {
        self.exact_weight(a as usize, b as usize) + crate::sums::only(
            a == b,
            2 * self.inner[a].amount(),
        )
    }

    /// What the pair `a`, `b` contributes to modularity, times twice the total.
    pub open spec fn full_term(self, a: int, b: int) -> int {
        2 * self.exact_total() * self.full_weight(a, b) - self.exact_degree(a as usize)
            * self.exact_degree(b as usize)
    }

    /// The term of `a` and `b`, if they are in one community.
    pub(crate) open spec fn joint_term(self, labels: Map<usize, CommunityId>, a: int, b: int) -> int {
        crate::sums::only(labels[a as usize] == labels[b as usize], self.full_term(a, b))
    }

    /// The terms of all ordered pairs below `m` in one community, those of nodes with
    /// themselves included.
    pub(crate) open spec fn full_pairs(self, labels: Map<usize, CommunityId>, m: int) -> int {
        crate::sums::sum(
            m,
            |a: int| crate::sums::sum(m, |b: int| self.joint_term(labels, a, b)),
        )
    }

    proof fn lemma_degree_sum(self, a: usize, m: int)
        requires
            0 <= m,
        ensures
            self.exact_degree_below(a, m) == crate::sums::sum(
                m,
                |b: int| self.exact_weight(a, b as usize),
            ),
        decreases m,
    {
        if 0 < m {
            self.lemma_degree_sum(a, m - 1);
        }
    }

    /// The degree of a node is the sum of its weights.
    pub(crate) proof fn lemma_degree(self, a: int)
        requires
            0 <= a < self.nodes.len() <= usize::MAX,
        ensures
            self.exact_degree(a as usize) == crate::sums::sum(
                self.nodes.len() as int,
                |b: int| self.full_weight(a, b),
            ),
    {
        let n = self.nodes.len() as int;
        let outer = |b: int| self.exact_weight(a as usize, b as usize);
        let own = |b: int| crate::sums::only(a == b, 2 * self.inner[a].amount());
        self.lemma_degree_sum(a as usize, n);
        crate::sums::lemma_plus(n, outer, own);
        crate::sums::lemma_one(n, a, own);
        let both = |b: int| outer(b) + own(b);
        let full = |b: int| self.full_weight(a, b);
        assert forall|b: int| 0 <= b < n implies #[trigger] both(b) == full(b) by {}
        crate::sums::lemma_same(n, both, full);
    }

    /// The pairs below `m` in both orders, and with themselves.
    pub(crate) proof fn lemma_full_below(self, labels: Map<usize, CommunityId>, m: int)
        requires
            self.wf(),
            0 <= m <= self.nodes.len() <= usize::MAX,
        ensures
            self.full_pairs(labels, m) == 2 * self.exact_pairs_below(labels, m)
                + crate::sums::sum(m, |a: int| self.full_term(a, a)),
        decreases m,
    {
        if 0 < m {
            let last = m - 1;
            self.lemma_full_below(labels, last);
            let shorter = |a: int| crate::sums::sum(last, |b: int| self.joint_term(labels, a, b));
            let column = |a: int| self.joint_term(labels, a, last);
            let longer = |a: int| crate::sums::sum(m, |b: int| self.joint_term(labels, a, b));
            let split = |a: int| shorter(a) + column(a);
            crate::sums::lemma_plus(last, shorter, column);
            assert forall|a: int| 0 <= a < last implies #[trigger] longer(a) == split(a) by {
                let terms = |b: int| self.joint_term(labels, a, b);
                assert(crate::sums::sum(m, terms) == crate::sums::sum(last, terms) + terms(last));
            }
            crate::sums::lemma_same(last, longer, split);
            let row = |b: int| self.joint_term(labels, last, b);
            assert forall|b: int| 0 <= b < last implies #[trigger] row(b) == column(b) by {
                self.lemma_term_symmetric(last as usize, b as usize);
            }
            crate::sums::lemma_same(last, row, column);
            self.lemma_full_row(labels, last, last);
            assert(longer(last) == crate::sums::sum(last, row) + row(last));
            assert(self.full_pairs(labels, m) == crate::sums::sum(last, longer) + longer(last));
            assert(row(last) == self.full_term(last, last));
            let own = |a: int| self.full_term(a, a);
            assert(crate::sums::sum(m, own) == crate::sums::sum(last, own) + own(last));
        }
    }

    /// The terms of `j` with the nodes below `i`.
    proof fn lemma_full_row(self, labels: Map<usize, CommunityId>, j: int, i: int)
        requires
            0 <= i <= j <= usize::MAX,
        ensures
            crate::sums::sum(i, |b: int| self.joint_term(labels, b, j)) == self.exact_row(
                labels,
                j as usize,
                i,
            ),
        decreases i,
    {
        if 0 < i {
            self.lemma_full_row(labels, j, i - 1);
            let terms = |b: int| self.joint_term(labels, b, j);
            assert(crate::sums::sum(i, terms) == crate::sums::sum(i - 1, terms) + terms(i - 1));
        }
    }

    /// The amount of the weight between `a` and `b`, if `a` comes first.
    spec fn forward(self, a: int, b: int) -> int {
        crate::sums::only(a < b, self.exact_weight(a as usize, b as usize))
    }

    /// The amounts of the weights between all pairs of nodes, added up.
    spec fn pair_amounts(self) -> int {
        let n = self.nodes.len() as int;
        crate::sums::sum(n, |a: int| crate::sums::sum(n, |b: int| self.forward(a, b)))
    }

    /// The amount of the weight of edge `k`, if it leads from `a` to the later node `b`.
    spec fn tie(self, a: int, b: int, k: int) -> int {
        crate::sums::only(
            a < b && self.adjacent(a as usize, b as usize) && self.ids[(a as usize, b as usize)]
                == k,
            self.edges[k].weight.amount(),
        )
    }

    /// The amount of the weight of edge `k`, if it leads from `a` to a later node.
    spec fn ties(self, a: int, k: int) -> int {
        crate::sums::sum(self.nodes.len() as int, |b: int| self.tie(a, b, k))
    }

    /// The edges are the pairs of nodes that are joined.
    proof fn lemma_edge_amounts(self)
        requires
            self.wf(),
            self.nodes.len() <= usize::MAX,
            self.edges.len() <= usize::MAX,
        ensures
            self.pair_amounts() == crate::exact::edge_amounts(self.edges),
    {
        let n = self.nodes.len() as int;
        let e = self.edges.len() as int;
        let amount = |k: int| self.edges[k].weight.amount();
        let g = |a: int, k: int| self.ties(a, k);
        let rows = |a: int| crate::sums::sum(n, |b: int| self.forward(a, b));
        let by_edge = |a: int| crate::sums::sum(e, |k: int| g(a, k));
        assert forall|a: int| 0 <= a < n implies #[trigger] rows(a) == by_edge(a) by {
            let ha = |b: int, k: int| self.tie(a, b, k);
            let row = |b: int| self.forward(a, b);
            let split = |b: int| crate::sums::sum(e, |k: int| ha(b, k));
            assert forall|b: int| 0 <= b < n implies #[trigger] row(b) == split(b) by {
                let terms = |k: int| ha(b, k);
                if a < b && self.adjacent(a as usize, b as usize) {
                    assert(self.ids.contains_key((a as usize, b as usize)));
                    crate::sums::lemma_one(
                        e,
                        self.ids[(a as usize, b as usize)] as int,
                        terms,
                    );
                } else {
                    crate::sums::lemma_zero(e, terms);
                }
            }
            crate::sums::lemma_same(n, row, split);
            crate::sums::lemma_swap(n, e, ha);
            let lines = |k: int| crate::sums::sum(n, |b: int| ha(b, k));
            let wanted = |k: int| g(a, k);
            assert forall|k: int| 0 <= k < e implies #[trigger] lines(k) == wanted(k) by {
                crate::sums::lemma_same(n, |b: int| ha(b, k), |b: int| self.tie(a, b, k));
            }
            crate::sums::lemma_same(e, lines, wanted);
        }
        crate::sums::lemma_same(n, rows, by_edge);
        crate::sums::lemma_swap(n, e, g);
        let columns = |k: int| crate::sums::sum(n, |a: int| g(a, k));
        assert forall|k: int| 0 <= k < e implies #[trigger] columns(k) == amount(k) by {
            assert(self.joins(k));
            let (c, d) = choose|c: usize, d: usize| #[trigger]
                self.ids.contains_key((c, d)) && self.ids[(c, d)] == k;
            assert(self.ids.contains_key((d, c)));
            let (a0, b0) = if c < d {
                (c, d)
            } else {
                (d, c)
            };
            assert(self.ids.contains_key((a0, b0)) && self.ids[(a0, b0)] == k && a0 < b0);
            let column = |a: int| g(a, k);
            assert forall|a: int| 0 <= a < n && a != a0 implies #[trigger] column(a) == 0 by {
                let line = |b: int| self.tie(a, b, k);
                assert forall|b: int| 0 <= b < n implies #[trigger] line(b) == 0 by {
                    if a < b && self.adjacent(a as usize, b as usize) {
                        assert(self.ids.contains_key((a as usize, b as usize)));
                    }
                }
                crate::sums::lemma_zero(n, line);
            }
            crate::sums::lemma_one(n, a0 as int, column);
            let line = |b: int| self.tie(a0 as int, b, k);
            assert forall|b: int| 0 <= b < n && b != b0 implies #[trigger] line(b) == 0 by {
                if a0 < b && self.adjacent(a0, b as usize) {
                    assert(self.ids.contains_key((a0, b as usize)));
                }
            }
            crate::sums::lemma_one(n, b0 as int, line);
        }
        crate::sums::lemma_same(e, columns, amount);
        lemma_edge_sum(self.edges, e);
    }

    /// The degrees add up to twice the total weight.
    pub proof fn law_degrees_add_up(self)
        requires
            self.wf(),
            self.nodes.len() <= usize::MAX,
            self.edges.len() <= usize::MAX,
        ensures
            crate::sums::sum(self.nodes.len() as int, |a: int| self.exact_degree(a as usize)) == 2
                * self.exact_total(),
    {
        let n = self.nodes.len() as int;
        let degree = |a: int| self.exact_degree(a as usize);
        let links = |a: int|
            crate::sums::sum(n, |b: int| self.exact_weight(a as usize, b as usize));
        let inner = |a: int| 2 * self.inner[a].amount();
        crate::sums::lemma_plus(n, links, inner);
        let both = |a: int| links(a) + inner(a);
        assert forall|a: int| 0 <= a < n implies #[trigger] degree(a) == both(a) by {
            self.lemma_degree_sum(a as usize, n);
        }
        crate::sums::lemma_same(n, degree, both);
        let plain = |a: int| self.inner[a].amount();
        crate::sums::lemma_times(n, 2, plain);
        crate::sums::lemma_same(n, inner, |a: int| 2 * plain(a));
        lemma_inner_sum(self.inner, n);
        // Each pair comes in both orders.
        let ahead = |a: int| crate::sums::sum(n, |b: int| self.forward(a, b));
        let back = |a: int| crate::sums::sum(n, |b: int| self.forward(b, a));
        crate::sums::lemma_plus(n, ahead, back);
        let either = |a: int| ahead(a) + back(a);
        assert forall|a: int| 0 <= a < n implies #[trigger] links(a) == either(a) by {
            let f = |b: int| self.forward(a, b);
            let r = |b: int| self.forward(b, a);
            crate::sums::lemma_plus(n, f, r);
            let w = |b: int| self.exact_weight(a as usize, b as usize);
            let fr = |b: int| f(b) + r(b);
            assert forall|b: int| 0 <= b < n implies #[trigger] w(b) == fr(b) by {
                self.lemma_term_symmetric(a as usize, b as usize);
                if a == b && self.adjacent(a as usize, a as usize) {
                    assert(self.ids.contains_key((a as usize, a as usize)));
                }
            }
            crate::sums::lemma_same(n, w, fr);
        }
        crate::sums::lemma_same(n, links, either);
        let turned = |a: int, b: int| self.forward(b, a);
        let across = |a: int| crate::sums::sum(n, |b: int| turned(a, b));
        assert forall|a: int| 0 <= a < n implies #[trigger] back(a) == across(a) by {
            crate::sums::lemma_same(n, |b: int| self.forward(b, a), |b: int| turned(a, b));
        }
        crate::sums::lemma_same(n, back, across);
        crate::sums::lemma_swap(n, n, turned);
        let down = |b: int| crate::sums::sum(n, |a: int| turned(a, b));
        assert forall|b: int| 0 <= b < n implies #[trigger] down(b) == ahead(b) by {
            crate::sums::lemma_same(n, |a: int| turned(a, b), |a: int| self.forward(b, a));
        }
        crate::sums::lemma_same(n, down, ahead);
        assert(crate::sums::sum(n, links) == 2 * self.pair_amounts());
        self.lemma_edge_amounts();
    }

    /// The weight between and inside the sets of `parts` is carried into `made` without
    /// rounding: between two of them the weights of the edges that join them, and inside
    /// each of them, counted from both ends, the weights of the edges within it and those
    /// inside its nodes.
    pub open spec fn carries_exactly(
        self,
        parts: Seq<Set<usize>>,
        made: GraphView<Community, ()>,
    ) -> bool {
        let n = self.nodes.len() as int;
        &&& made.nodes.len() == parts.len()
        &&& forall|x: int, y: int|
            0 <= x < parts.len() && 0 <= y < parts.len() && x != y
                ==> #[trigger] made.exact_weight(x as usize, y as usize) == block(
                n,
                parts,
                x,
                y,
                |a: int, b: int| self.exact_weight(a as usize, b as usize),
            )
        &&& forall|x: int|
            0 <= x < parts.len() ==> 2 * (#[trigger] made.inner[x]).amount()
                == crate::sums::sum_in(
                n,
                parts[x],
                |a: int|
                    2 * self.inner[a].amount() + crate::sums::sum_in(
                        n,
                        parts[x],
                        |b: int| self.exact_weight(a as usize, b as usize),
                    ),
            )
    }

    /// The weight between two communities, or inside one.
    pub(crate) proof fn lemma_carried_weight(
        self,
        parts: Seq<Set<usize>>,
        made: GraphView<Community, ()>,
        x: int,
        y: int,
    )
        requires
            made.wf(),
            self.nodes.len() <= usize::MAX,
            crate::refine::partitions(parts, crate::refine::numbers(self.nodes.len())),
            self.carries_exactly(parts, made),
            parts.len() <= usize::MAX,
            0 <= x < parts.len(),
            0 <= y < parts.len(),
        ensures
            made.full_weight(x, y) == block(
                self.nodes.len() as int,
                parts,
                x,
                y,
                |a: int, b: int| self.full_weight(a, b),
            ),
    {
        let n = self.nodes.len() as int;
        let w = |a: int, b: int| self.exact_weight(a as usize, b as usize);
        let full = |a: int, b: int| self.full_weight(a, b);
        if x != y {
            assert forall|a: int, b: int|
                0 <= a < n && 0 <= b < n && parts[x].contains(a as usize) && parts[y].contains(
                    b as usize,
                ) implies #[trigger] w(a, b) == full(a, b) by {
                assert(parts[x].disjoint(parts[y]));
            }
            lemma_same_block(n, parts, x, y, w, full);
            assert(made.exact_weight(x as usize, y as usize) == block(n, parts, x, y, w));
        } else {
            if made.adjacent(x as usize, x as usize) {
                assert(made.ids.contains_key((x as usize, x as usize)));
            }
            let given = |a: int|
                2 * self.inner[a].amount() + crate::sums::sum_in(
                    n,
                    parts[x],
                    |b: int| self.exact_weight(a as usize, b as usize),
                );
            let wanted = |a: int| crate::sums::sum_in(n, parts[x], |b: int| full(a, b));
            assert forall|a: int|
                0 <= a < n && parts[x].contains(a as usize) implies #[trigger] given(a)
                == wanted(a) by {
                let outer = |b: int| self.exact_weight(a as usize, b as usize);
                let own = |b: int| crate::sums::only(a == b, 2 * self.inner[a].amount());
                lemma_plus_in(n, parts[x], outer, own);
                let own_in = |b: int| crate::sums::only(parts[x].contains(b as usize), own(b));
                crate::sums::lemma_one(n, a, own_in);
                let both = |b: int| outer(b) + own(b);
                let fa = |b: int| full(a, b);
                assert forall|b: int|
                    0 <= b < n && parts[x].contains(b as usize) implies #[trigger] both(b) == fa(
                    b,
                ) by {}
                lemma_same_in(n, parts[x], both, fa);
            }
            lemma_same_in(n, parts[x], given, wanted);
            assert(2 * made.inner[x].amount() == crate::sums::sum_in(n, parts[x], given));
        }
    }

    /// The degree of a community is that of its nodes together.
    pub proof fn law_degree_is_carried(
        self,
        parts: Seq<Set<usize>>,
        made: GraphView<Community, ()>,
        x: int,
    )
        requires
            made.wf(),
            self.nodes.len() <= usize::MAX,
            crate::refine::partitions(parts, crate::refine::numbers(self.nodes.len())),
            self.carries_exactly(parts, made),
            parts.len() <= usize::MAX,
            0 <= x < parts.len(),
        ensures
            made.exact_degree(x as usize) == crate::sums::sum_in(
                self.nodes.len() as int,
                parts[x],
                |a: int| self.exact_degree(a as usize),
            ),
    {
        let n = self.nodes.len() as int;
        let p = parts.len() as int;
        let full = |a: int, b: int| self.full_weight(a, b);
        made.lemma_degree(x);
        let above = |y: int| made.full_weight(x, y);
        let h = |y: int, a: int|
            crate::sums::only(
                parts[x].contains(a as usize),
                crate::sums::sum_in(n, parts[y], |b: int| full(a, b)),
            );
        let rows = |y: int| crate::sums::sum(n, |a: int| h(y, a));
        assert forall|y: int| 0 <= y < p implies #[trigger] above(y) == rows(y) by {
            self.lemma_carried_weight(parts, made, x, y);
            let inner = |a: int| crate::sums::sum_in(n, parts[y], |b: int| full(a, b));
            crate::sums::lemma_same(
                n,
                |a: int| crate::sums::only(parts[x].contains(a as usize), inner(a)),
                |a: int| h(y, a),
            );
        }
        crate::sums::lemma_same(p, above, rows);
        crate::sums::lemma_swap(p, n, h);
        let columns = |a: int| crate::sums::sum(p, |y: int| h(y, a));
        let degree = |a: int| self.exact_degree(a as usize);
        let wanted = |a: int| crate::sums::only(parts[x].contains(a as usize), degree(a));
        assert forall|a: int| 0 <= a < n implies #[trigger] columns(a) == wanted(a) by {
            if parts[x].contains(a as usize) {
                let fa = |b: int| full(a, b);
                crate::sums::lemma_parts(n, parts, fa);
                let by_part = |y: int| crate::sums::sum_in(n, parts[y], fa);
                let column = |y: int| h(y, a);
                assert forall|y: int| 0 <= y < p implies #[trigger] column(y) == by_part(y) by {
                    crate::sums::lemma_same(
                        n,
                        |b: int|
                            crate::sums::only(
                                parts[y].contains(b as usize),
                                (|b: int| full(a, b))(b),
                            ),
                        |b: int| crate::sums::only(parts[y].contains(b as usize), fa(b)),
                    );
                }
                crate::sums::lemma_same(p, column, by_part);
                self.lemma_degree(a);
                crate::sums::lemma_same(n, fa, |b: int| self.full_weight(a, b));
            } else {
                let column = |y: int| h(y, a);
                crate::sums::lemma_zero(p, column);
            }
        }
        crate::sums::lemma_same(n, columns, wanted);
    }

    /// The total weight is the same on both levels.
    pub proof fn law_total_is_carried(
        self,
        parts: Seq<Set<usize>>,
        made: GraphView<Community, ()>,
    )
        requires
            self.wf(),
            made.wf(),
            self.nodes.len() <= usize::MAX,
            self.edges.len() <= usize::MAX,
            made.edges.len() <= usize::MAX,
            crate::refine::partitions(parts, crate::refine::numbers(self.nodes.len())),
            self.carries_exactly(parts, made),
        ensures
            made.exact_total() == self.exact_total(),
    {
        let n = self.nodes.len() as int;
        let p = parts.len() as int;
        crate::refine::lemma_numbers(self.nodes.len());
        crate::refine::lemma_partition_size(parts, crate::refine::numbers(self.nodes.len()));
        let degree = |a: int| self.exact_degree(a as usize);
        crate::sums::lemma_parts(n, parts, degree);
        let by_part = |x: int| crate::sums::sum_in(n, parts[x], degree);
        let above = |x: int| made.exact_degree(x as usize);
        assert forall|x: int| 0 <= x < p implies #[trigger] above(x) == by_part(x) by {
            self.law_degree_is_carried(parts, made, x);
        }
        crate::sums::lemma_same(p, above, by_part);
        self.law_degrees_add_up();
        made.law_degrees_add_up();
    }

    /// The term of two communities is the sum of those of their nodes.
    proof fn lemma_carried_term(
        self,
        parts: Seq<Set<usize>>,
        made: GraphView<Community, ()>,
        x: int,
        y: int,
    )
        requires
            made.wf(),
            self.nodes.len() <= usize::MAX,
            crate::refine::partitions(parts, crate::refine::numbers(self.nodes.len())),
            self.carries_exactly(parts, made),
            made.exact_total() == self.exact_total(),
            parts.len() <= usize::MAX,
            0 <= x < parts.len(),
            0 <= y < parts.len(),
        ensures
            made.full_term(x, y) == block(
                self.nodes.len() as int,
                parts,
                x,
                y,
                |a: int, b: int| self.full_term(a, b),
            ),
    {
        let n = self.nodes.len() as int;
        let m2 = 2 * self.exact_total();
        let degree = |a: int| self.exact_degree(a as usize);
        let full = |a: int, b: int| self.full_weight(a, b);
        self.lemma_carried_weight(parts, made, x, y);
        self.law_degree_is_carried(parts, made, x);
        self.law_degree_is_carried(parts, made, y);
        crate::sums::lemma_product(n, parts[x], parts[y], degree, degree);
        let weights = |a: int| crate::sums::sum_in(n, parts[y], |b: int| full(a, b));
        let products = |a: int| crate::sums::sum_in(n, parts[y], |b: int| degree(a) * degree(b));
        let terms = |a: int| crate::sums::sum_in(n, parts[y], |b: int| self.full_term(a, b));
        lemma_times_in(n, parts[x], m2, weights);
        lemma_times_in(n, parts[x], -1, products);
        let scaled = |a: int| m2 * weights(a);
        let negated = |a: int| -1 * products(a);
        lemma_plus_in(n, parts[x], scaled, negated);
        let both = |a: int| scaled(a) + negated(a);
        assert forall|a: int| 0 <= a < n && parts[x].contains(a as usize) implies #[trigger] both(
            a,
        ) == terms(a) by {
            let wa = |b: int| full(a, b);
            let pa = |b: int| degree(a) * degree(b);
            lemma_times_in(n, parts[y], m2, wa);
            lemma_times_in(n, parts[y], -1, pa);
            let ws = |b: int| m2 * wa(b);
            let ps = |b: int| -1 * pa(b);
            lemma_plus_in(n, parts[y], ws, ps);
            let sum = |b: int| ws(b) + ps(b);
            let ta = |b: int| self.full_term(a, b);
            assert forall|b: int| 0 <= b < n && parts[y].contains(b as usize) implies #[trigger] sum(
                b,
            ) == ta(b) by {}
            lemma_same_in(n, parts[y], sum, ta);
        }
        lemma_same_in(n, parts[x], both, terms);
        let full_terms = |a: int, b: int| self.full_term(a, b);
        let terms2 = |a: int| crate::sums::sum_in(n, parts[y], |b: int| full_terms(a, b));
        assert forall|a: int| 0 <= a < n && parts[x].contains(a as usize) implies #[trigger] terms(
            a,
        ) == terms2(a) by {
            lemma_same_in(
                n,
                parts[y],
                |b: int| self.full_term(a, b),
                |b: int| full_terms(a, b),
            );
        }
        lemma_same_in(n, parts[x], terms, terms2);
    }

    /// The terms of all pairs are the same on both levels.
    proof fn lemma_full_carried(
        self,
        parts: Seq<Set<usize>>,
        made: GraphView<Community, ()>,
        labels: Map<usize, CommunityId>,
    )
        requires
            made.wf(),
            self.nodes.len() <= usize::MAX,
            crate::refine::partitions(parts, crate::refine::numbers(self.nodes.len())),
            self.carries_exactly(parts, made),
            made.exact_total() == self.exact_total(),
            parts.len() <= usize::MAX,
        ensures
            made.full_pairs(labels, parts.len() as int) == self.full_pairs(
                lifted(parts, labels, self.nodes.len()),
                self.nodes.len() as int,
            ),
    {
        let n = self.nodes.len() as int;
        let p = parts.len() as int;
        let low = lifted(parts, labels, self.nodes.len());
        let all = crate::refine::numbers(self.nodes.len());
        let f = |a: int, b: int| self.joint_term(low, a, b);
        let t = |a: int, b: int| self.full_term(a, b);
        // By the sets of the first node.
        let rows = |a: int| crate::sums::sum(n, |b: int| self.joint_term(low, a, b));
        crate::sums::lemma_parts(n, parts, rows);
        let by_first = |x: int| crate::sums::sum_in(n, parts[x], rows);
        let above = |x: int| crate::sums::sum(p, |y: int| made.joint_term(labels, x, y));
        assert forall|x: int| 0 <= x < p implies #[trigger] by_first(x) == above(x) by {
            // By the sets of the second node.
            let h = |a: int, y: int|
                crate::sums::only(
                    parts[x].contains(a as usize),
                    crate::sums::sum_in(n, parts[y], |b: int| f(a, b)),
                );
            let mine = |a: int| crate::sums::only(parts[x].contains(a as usize), rows(a));
            let split = |a: int| crate::sums::sum(p, |y: int| h(a, y));
            assert forall|a: int| 0 <= a < n implies #[trigger] mine(a) == split(a) by {
                let column = |y: int| h(a, y);
                if parts[x].contains(a as usize) {
                    let fa = |b: int| f(a, b);
                    crate::sums::lemma_parts(n, parts, fa);
                    crate::sums::lemma_same(n, |b: int| self.joint_term(low, a, b), fa);
                    let by_second = |y: int| crate::sums::sum_in(n, parts[y], fa);
                    assert forall|y: int| 0 <= y < p implies #[trigger] column(y) == by_second(
                        y,
                    ) by {}
                    crate::sums::lemma_same(p, column, by_second);
                } else {
                    crate::sums::lemma_zero(p, column);
                }
            }
            crate::sums::lemma_same(n, mine, split);
            crate::sums::lemma_swap(n, p, h);
            let blocks = |y: int| crate::sums::sum(n, |a: int| h(a, y));
            let wanted = |y: int| made.joint_term(labels, x, y);
            assert forall|y: int| 0 <= y < p implies #[trigger] blocks(y) == wanted(y) by {
                let inner = |a: int| crate::sums::sum_in(n, parts[y], |b: int| f(a, b));
                crate::sums::lemma_same(
                    n,
                    |a: int| h(a, y),
                    |a: int| crate::sums::only(parts[x].contains(a as usize), inner(a)),
                );
                assert(blocks(y) == block(n, parts, x, y, f));
                let together = labels[x as usize] == labels[y as usize];
                let zero = |a: int, b: int| 0int;
                assert forall|a: int, b: int|
                    0 <= a < n && 0 <= b < n && parts[x].contains(a as usize)
                        && parts[y].contains(b as usize) implies #[trigger] f(a, b)
                    == (if together {
                    t(a, b)
                } else {
                    0
                }) by {
                    crate::compress::lemma_place(parts, all, x, a as usize);
                    crate::compress::lemma_place(parts, all, y, b as usize);
                }
                if together {
                    lemma_same_block(n, parts, x, y, f, t);
                    self.lemma_carried_term(parts, made, x, y);
                } else {
                    lemma_same_block(n, parts, x, y, f, zero);
                    lemma_zero_block(n, parts, x, y, zero);
                }
            }
            crate::sums::lemma_same(p, blocks, wanted);
        }
        crate::sums::lemma_same(p, by_first, above);
    }

    /// Moving communities changes modularity, times twice the square of the total weight,
    /// by as much on their level as on the level they are made of.
    pub proof fn law_levels_share_modularity(
        self,
        parts: Seq<Set<usize>>,
        made: GraphView<Community, ()>,
        first: Map<usize, CommunityId>,
        second: Map<usize, CommunityId>,
    )
        requires
            self.wf(),
            made.wf(),
            self.nodes.len() <= usize::MAX,
            self.edges.len() <= usize::MAX,
            made.edges.len() <= usize::MAX,
            crate::refine::partitions(parts, crate::refine::numbers(self.nodes.len())),
            self.carries_exactly(parts, made),
        ensures
            made.exact_pairs(second) - made.exact_pairs(first) == self.exact_pairs(
                lifted(parts, second, self.nodes.len()),
            ) - self.exact_pairs(lifted(parts, first, self.nodes.len())),
    {
        let n = self.nodes.len() as int;
        let p = parts.len() as int;
        crate::refine::lemma_numbers(self.nodes.len());
        crate::refine::lemma_partition_size(parts, crate::refine::numbers(self.nodes.len()));
        self.law_total_is_carried(parts, made);
        self.lemma_full_carried(parts, made, first);
        self.lemma_full_carried(parts, made, second);
        made.lemma_full_below(first, p);
        made.lemma_full_below(second, p);
        self.lemma_full_below(lifted(parts, first, self.nodes.len()), n);
        self.lemma_full_below(lifted(parts, second, self.nodes.len()), n);
    }
}

/// A block of zeros.
proof fn lemma_zero_block(
    n: int,
    parts: Seq<Set<usize>>,
    x: int,
    y: int,
    f: spec_fn(int, int) -> int,
)
    requires
        forall|a: int, b: int| #[trigger] f(a, b) == 0,
    ensures
        block(n, parts, x, y, f) == 0,
{
    let rows = |a: int| crate::sums::sum_in(n, parts[y], |b: int| f(a, b));
    assert forall|a: int| #[trigger] rows(a) == 0 by {
        crate::sums::lemma_zero(
            n,
            |b: int| crate::sums::only(parts[y].contains(b as usize), (|b: int| f(a, b))(b)),
        );
    }
    crate::sums::lemma_zero(
        n,
        |a: int| crate::sums::only(parts[x].contains(a as usize), rows(a)),
    );
}

} // verus!
