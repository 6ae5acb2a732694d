//! What communities weigh on every level.
//!
//! Where adding up weights needs no rounding, the weight between two communities is that
//! of all edges between their nodes, however many levels lie between.

use crate::community::Community;
use crate::exact_levels::lemma_same_in;
use crate::graph::GraphView;
use crate::optimizer::ModularityOptimizer;
use crate::sums::{lemma_one, lemma_same, lemma_swap, lemma_zero, only, sum, sum_in};
use crate::tables::NodeSet;
use vstd::prelude::*;

verus! {

/// For each of the communities `high`, the numbers of those communities of `low` that it
/// is made up of.
pub open spec fn composition(low: Seq<Community>, high: Seq<Community>) -> Seq<Set<usize>> {
    Seq::new(
        high.len(),
        |x: int|
            Set::new(|c: usize| c < low.len() && low[c as int].nodes().subset_of(high[x].nodes())),
    )
}

/// The sets that communities were made of are what they are made up of.
proof fn lemma_composition(
    n: nat,
    low: Seq<Community>,
    parts: Seq<Set<usize>>,
    high: Seq<Community>,
)
    requires
        low.len() <= usize::MAX,
        crate::leiden::divides(low, n),
        crate::leiden::divides(high, n),
        crate::refine::partitions(parts, crate::refine::numbers(low.len())),
        high.len() == parts.len(),
        forall|x: int|
            0 <= x < parts.len() ==> #[trigger] crate::leiden_laws::origins(
                low,
                parts[x],
                high[x],
            ),
    ensures
        composition(low, high) == parts,
{
    let indices = crate::refine::numbers(low.len());
    let lows = crate::leiden::members(low);
    let highs = crate::leiden::members(high);
    assert forall|x: int| 0 <= x < parts.len() implies #[trigger] composition(low, high)[x]
        == parts[x] by {
        assert(crate::leiden_laws::origins(low, parts[x], high[x]));
        assert forall|c: usize| composition(low, high)[x].contains(c) == parts[x].contains(c) by {
            if parts[x].contains(c) {
                assert(indices.contains(c));
                assert forall|node: usize| low[c as int].nodes().contains(
                    node,
                ) implies high[x].nodes().contains(node) by {}
            }
            if composition(low, high)[x].contains(c) {
                assert(indices.contains(c));
                let y = choose|y: int| 0 <= y < parts.len() && (#[trigger] parts[y]).contains(c);
                assert(crate::leiden_laws::origins(low, parts[y], high[y]));
                assert(lows[c as int] != Set::<usize>::empty());
                if forall|node: usize| !lows[c as int].contains(node) {
                    assert(lows[c as int] =~= Set::<usize>::empty());
                }
                let node = choose|node: usize| lows[c as int].contains(node);
                assert(low[c as int].nodes().contains(node));
                assert(highs[x].contains(node) && highs[y].contains(node));
                if x != y {
                    assert(highs[x].disjoint(highs[y]));
                }
            }
        }
        assert(composition(low, high)[x] =~= parts[x]);
    }
    assert(composition(low, high) =~= parts);
}

/// A sum over the communities that a community is made up of is a sum over its nodes.
proof fn lemma_gather(
    n: int,
    low: Seq<Community>,
    part: Set<usize>,
    community: Community,
    f: spec_fn(int) -> int,
)
    requires
        low.len() <= usize::MAX,
        n <= usize::MAX,
        forall|c: usize| #[trigger] part.contains(c) ==> c < low.len(),
        forall|i: int, j: int|
            0 <= i < low.len() && 0 <= j < low.len() && i != j ==> (
            #[trigger] low[i]).nodes().disjoint((#[trigger] low[j]).nodes()),
        crate::leiden_laws::origins(low, part, community),
    ensures
        sum_in(low.len() as int, part, |c: int| sum_in(n, low[c].nodes(), f)) == sum_in(
            n,
            community.nodes(),
            f,
        ),
{
    let p = low.len() as int;
    let h = |c: int, a: int|
        only(part.contains(c as usize) && low[c].nodes().contains(a as usize), f(a));
    let outer = |c: int| sum_in(n, low[c].nodes(), f);
    let given = |c: int| only(part.contains(c as usize), outer(c));
    let rows = |c: int| sum(n, |a: int| h(c, a));
    assert forall|c: int| 0 <= c < p implies #[trigger] given(c) == rows(c) by {
        let row = |a: int| h(c, a);
        if part.contains(c as usize) {
            let members = |a: int| only(low[c].nodes().contains(a as usize), f(a));
            assert forall|a: int| 0 <= a < n implies #[trigger] members(a) == row(a) by {}
            lemma_same(n, members, row);
        } else {
            lemma_zero(n, row);
        }
    }
    lemma_same(p, given, rows);
    lemma_swap(p, n, h);
    let columns = |a: int| sum(p, |c: int| h(c, a));
    let wanted = |a: int| only(community.nodes().contains(a as usize), f(a));
    assert forall|a: int| 0 <= a < n implies #[trigger] columns(a) == wanted(a) by {
        let node = a as usize;
        let column = |c: int| h(c, a);
        if community.nodes().contains(node) {
            let c = choose|c: usize|
                part.contains(c) && #[trigger] low[c as int].nodes().contains(node);
            assert forall|d: int| 0 <= d < p && d != c implies #[trigger] column(d) == 0 by {
                assert(low[d].nodes().disjoint(low[c as int].nodes()));
            }
            assert(part.contains(c));
            lemma_one(p, c as int, column);
            assert((c as int) as usize == c);
        } else {
            assert forall|d: int| 0 <= d < p implies #[trigger] column(d) == 0 by {
                if part.contains(d as usize) && low[d].nodes().contains(node) {
                    assert(low[(d as usize) as int].nodes().contains(node));
                }
            }
            lemma_zero(p, column);
        }
    }
    lemma_same(n, columns, wanted);
}

/// The order of two sums over sets is irrelevant.
proof fn lemma_swap_in(
    p: int,
    first: Set<usize>,
    n: int,
    second: Set<usize>,
    g: spec_fn(int, int) -> int,
)
    ensures
        sum_in(p, first, |d: int| sum_in(n, second, |a: int| g(d, a))) == sum_in(
            n,
            second,
            |a: int| sum_in(p, first, |d: int| g(d, a)),
        ),
{
    let h = |d: int, a: int|
        only(first.contains(d as usize) && second.contains(a as usize), g(d, a));
    lemma_swap(p, n, h);
    let inner = |d: int| sum_in(n, second, |a: int| g(d, a));
    let given = |d: int| only(first.contains(d as usize), inner(d));
    let rows = |d: int| sum(n, |a: int| h(d, a));
    assert forall|d: int| 0 <= d < p implies #[trigger] given(d) == rows(d) by {
        let row = |a: int| h(d, a);
        if first.contains(d as usize) {
            let gd = |a: int| g(d, a);
            let members = |a: int| only(second.contains(a as usize), gd(a));
            assert forall|a: int| 0 <= a < n implies #[trigger] members(a) == row(a) by {}
            lemma_same(n, members, row);
        } else {
            lemma_zero(n, row);
        }
    }
    lemma_same(p, given, rows);
    let outer = |a: int| sum_in(p, first, |d: int| g(d, a));
    let wanted = |a: int| only(second.contains(a as usize), outer(a));
    let columns = |a: int| sum(p, |d: int| h(d, a));
    assert forall|a: int| 0 <= a < n implies #[trigger] wanted(a) == columns(a) by {
        let column = |d: int| h(d, a);
        if second.contains(a as usize) {
            let ga = |d: int| g(d, a);
            let members = |d: int| only(first.contains(d as usize), ga(d));
            assert forall|d: int| 0 <= d < p implies #[trigger] members(d) == column(d) by {}
            lemma_same(p, members, column);
        } else {
            lemma_zero(p, column);
        }
    }
    lemma_same(n, wanted, columns);
}

impl<N, E> GraphView<N, E> {
    /// The amounts of the weights between the nodes of two sets, added up.
    pub open spec fn weight_between(self, first: Set<usize>, second: Set<usize>) -> int {
        let n = self.nodes.len() as int;
        sum_in(
            n,
            first,
            |a: int| sum_in(n, second, |b: int| self.exact_weight(a as usize, b as usize)),
        )
    }

    /// The same, where the weight inside a node counts from both ends.
    pub open spec fn full_between(self, first: Set<usize>, second: Set<usize>) -> int {
        let n = self.nodes.len() as int;
        sum_in(n, first, |a: int| sum_in(n, second, |b: int| self.full_weight(a, b)))
    }

    /// What two communities of `level` weigh between them, or one of them inside, is what
    /// their nodes do.
    pub open spec fn weighed(self, level: GraphView<Community, ()>) -> bool {
        forall|x: int, y: int|
            0 <= x < level.nodes.len() && 0 <= y < level.nodes.len()
                ==> #[trigger] level.full_weight(x, y) == self.full_between(
                level.nodes[x].nodes(),
                level.nodes[y].nodes(),
            )
    }

    /// A block of a partition is what is between two of its sets.
    proof fn lemma_block_between(self, parts: Seq<Set<usize>>, x: int, y: int)
        ensures
            crate::exact_levels::block(
                self.nodes.len() as int,
                parts,
                x,
                y,
                |a: int, b: int| self.full_weight(a, b),
            ) == self.full_between(parts[x], parts[y]),
    {
        let n = self.nodes.len() as int;
        let w = |a: int, b: int| self.full_weight(a, b);
        let left = |a: int| sum_in(n, parts[y], |b: int| w(a, b));
        let right = |a: int| sum_in(n, parts[y], |b: int| self.full_weight(a, b));
        assert forall|a: int| 0 <= a < n && parts[x].contains(a as usize) implies #[trigger] left(
            a,
        ) == right(a) by {
            lemma_same_in(
                n,
                parts[y],
                |b: int| w(a, b),
                |b: int| self.full_weight(a, b),
            );
        }
        lemma_same_in(n, parts[x], left, right);
    }

    /// What is between communities made of communities.
    proof fn lemma_between(
        self,
        level: GraphView<Community, ()>,
        first: Set<usize>,
        one: Community,
        second: Set<usize>,
        other: Community,
    )
        requires
            self.nodes.len() <= usize::MAX,
            level.nodes.len() <= usize::MAX,
            self.weighed(level),
            forall|c: usize| #[trigger] first.contains(c) ==> c < level.nodes.len(),
            forall|c: usize| #[trigger] second.contains(c) ==> c < level.nodes.len(),
            forall|i: int, j: int|
                0 <= i < level.nodes.len() && 0 <= j < level.nodes.len() && i != j ==> (
                #[trigger] level.nodes[i]).nodes().disjoint((#[trigger] level.nodes[j]).nodes()),
            crate::leiden_laws::origins(level.nodes, first, one),
            crate::leiden_laws::origins(level.nodes, second, other),
        ensures
            level.full_between(first, second) == self.full_between(one.nodes(), other.nodes()),
    {
        let n = self.nodes.len() as int;
        let p = level.nodes.len() as int;
        let low = level.nodes;
        let w = |a: int, b: int| self.full_weight(a, b);
        let h = |a: int| sum_in(n, other.nodes(), |b: int| self.full_weight(a, b));
        let given = |c: int| sum_in(p, second, |d: int| level.full_weight(c, d));
        let gathered = |c: int| sum_in(n, low[c].nodes(), h);
        assert forall|c: int| 0 <= c < p && first.contains(c as usize) implies #[trigger] given(c)
            == gathered(c) by {
            let g = |d: int, a: int| sum_in(n, low[d].nodes(), |b: int| self.full_weight(a, b));
            let upper = |d: int| level.full_weight(c, d);
            let lower = |d: int| sum_in(n, low[c].nodes(), |a: int| g(d, a));
            assert forall|d: int| 0 <= d < p && second.contains(d as usize) implies #[trigger] upper(
                d,
            ) == lower(d) by {
                assert(level.full_weight(c, d) == self.full_between(
                    low[c].nodes(),
                    low[d].nodes(),
                ));
                lemma_same_in(
                    n,
                    low[c].nodes(),
                    |a: int| sum_in(n, low[d].nodes(), |b: int| self.full_weight(a, b)),
                    |a: int| g(d, a),
                );
            }
            lemma_same_in(p, second, upper, lower);
            lemma_swap_in(p, second, n, low[c].nodes(), g);
            let turned = |a: int| sum_in(p, second, |d: int| g(d, a));
            assert forall|a: int| 0 <= a < n && low[c].nodes().contains(
                a as usize,
            ) implies #[trigger] turned(a) == h(a) by {
                let wa = |b: int| self.full_weight(a, b);
                lemma_gather(n, low, second, other, wa);
                let ga = |d: int| g(d, a);
                let sums = |d: int| sum_in(n, low[d].nodes(), wa);
                assert forall|d: int| 0 <= d < p && second.contains(
                    d as usize,
                ) implies #[trigger] ga(d) == sums(d) by {
                    lemma_same_in(
                        n,
                        low[d].nodes(),
                        |b: int| self.full_weight(a, b),
                        wa,
                    );
                }
                lemma_same_in(p, second, ga, sums);
                lemma_same_in(n, other.nodes(), |b: int| self.full_weight(a, b), wa);
            }
            lemma_same_in(n, low[c].nodes(), turned, h);
        }
        lemma_same_in(p, first, given, gathered);
        lemma_gather(n, low, first, one, h);
    }

    /// Adding up weights needs no rounding on any level up to `levels[i]`.
    pub open spec fn levels_unrounded(self, levels: Seq<GraphView<Community, ()>>, i: int) -> bool {
        &&& self.carried_unrounded(crate::leiden::members(levels[0].nodes))
        &&& forall|k: int|
            0 < k <= i ==> levels[k - 1].carried_unrounded(
                composition(levels[k - 1].nodes, (#[trigger] levels[k]).nodes),
            )
    }

    /// What the first level weighs.
    proof fn lemma_founded_weighed<O: ModularityOptimizer>(
        self,
        before: O,
        judges: Seq<&mut O>,
        made: GraphView<Community, ()>,
        after: O,
    )
        requires
            self.wf(),
            self.nodes.len() <= usize::MAX,
            made.edges.len() <= usize::MAX,
            self.founded(before, judges, made, after),
            self.carried_unrounded(crate::leiden::members(made.nodes)),
        ensures
            self.weighed(made),
    {
        let sets = choose|sets: Seq<NodeSet>|
            {
                &&& #[trigger] self.parted(before, judges, crate::refine::views(sets), after)
                &&& made == self.bridged(
                    crate::refine::views(sets),
                    crate::compress::first_level(sets),
                )
            };
        let parts = crate::refine::views(sets);
        let nodes = crate::compress::first_level(sets);
        self.law_parted_partitions(before, judges, parts, after);
        self.lemma_bridged_below_nodes(
            parts,
            crate::compress::nodes_alone(nodes),
            self.nodes.len() as int,
        );
        assert(crate::leiden::members(made.nodes) =~= parts);
        self.law_bridging_carries(parts, nodes);
        assert forall|x: int, y: int|
            0 <= x < made.nodes.len() && 0 <= y < made.nodes.len() implies #[trigger] made.full_weight(
            x,
            y,
        ) == self.full_between(made.nodes[x].nodes(), made.nodes[y].nodes()) by {
            assert(made.nodes[x].nodes() == parts[x] && made.nodes[y].nodes() == parts[y]);
            self.lemma_carried_weight(parts, made, x, y);
            self.lemma_block_between(parts, x, y);
        }
    }

    /// What the next level weighs.
    proof fn lemma_raised_weighed<O: ModularityOptimizer>(
        self,
        level: GraphView<Community, ()>,
        before: O,
        judges: Seq<&mut O>,
        made: GraphView<Community, ()>,
        after: O,
    )
        requires
            self.wf(),
            self.nodes.len() <= u32::MAX,
            level.wf(),
            level.nodes.len() <= u32::MAX,
            made.edges.len() <= usize::MAX,
            self.spanned(level),
            self.weighed(level),
            level.raised(before, judges, made, after),
            level.carried_unrounded(composition(level.nodes, made.nodes)),
        ensures
            self.weighed(made),
    {
        let parts = choose|parts: Seq<Set<usize>>|
            {
                &&& #[trigger] level.parted(before, judges, parts, after)
                &&& if parts.len() == level.nodes.len() {
                    made == level
                } else {
                    &&& crate::compress::next_level(level.nodes, parts, made.nodes)
                    &&& made == level.bridged(parts, made.nodes)
                }
            };
        if parts.len() != level.nodes.len() {
            level.law_parted_partitions(before, judges, parts, after);
            level.law_raised_divides(before, judges, made, after, self.nodes.len());
            let indices = crate::refine::numbers(level.nodes.len());
            let low = crate::leiden::members(level.nodes);
            assert forall|i: int, j: int|
                0 <= i < level.nodes.len() && 0 <= j < level.nodes.len() && i != j implies (
            #[trigger] level.nodes[i]).nodes().disjoint((#[trigger] level.nodes[j]).nodes()) by {
                assert(low[i].disjoint(low[j]));
            }
            assert forall|x: int| 0 <= x < parts.len() implies #[trigger] crate::leiden_laws::origins(
                level.nodes,
                parts[x],
                made.nodes[x],
            ) by {
                assert(crate::compress::merges(level.nodes, parts[x], made.nodes[x]));
                assert forall|c: usize| parts[x].contains(c) implies c < level.nodes.len() by {
                    assert(indices.contains(c));
                }
                crate::leiden_laws::lemma_merges(level.nodes, parts[x], made.nodes[x]);
            }
            lemma_composition(self.nodes.len(), level.nodes, parts, made.nodes);
            level.law_bridging_carries(parts, made.nodes);
            assert forall|x: int, y: int|
                0 <= x < made.nodes.len() && 0 <= y < made.nodes.len() implies #[trigger] made.full_weight(
                x,
                y,
            ) == self.full_between(made.nodes[x].nodes(), made.nodes[y].nodes()) by {
                level.lemma_carried_weight(parts, made, x, y);
                level.lemma_block_between(parts, x, y);
                assert(crate::leiden_laws::origins(level.nodes, parts[x], made.nodes[x]));
                assert(crate::leiden_laws::origins(level.nodes, parts[y], made.nodes[y]));
                assert forall|c: usize| #[trigger] parts[x].contains(c) implies c
                    < level.nodes.len() by {
                    assert(indices.contains(c));
                }
                assert forall|c: usize| #[trigger] parts[y].contains(c) implies c
                    < level.nodes.len() by {
                    assert(indices.contains(c));
                }
                self.lemma_between(level, parts[x], made.nodes[x], parts[y], made.nodes[y]);
            }
        }
    }

    /// The weight between two different communities, by the edges between their nodes.
    proof fn lemma_weighed_edges(self, level: GraphView<Community, ()>, x: int, y: int)
        requires
            self.weighed(level),
            crate::leiden::divides(level.nodes, self.nodes.len()),
            self.nodes.len() <= usize::MAX,
            0 <= x < level.nodes.len(),
            0 <= y < level.nodes.len(),
            x != y,
        ensures
            level.exact_weight(x as usize, y as usize) == self.weight_between(
                level.nodes[x].nodes(),
                level.nodes[y].nodes(),
            ),
    {
        let n = self.nodes.len() as int;
        let first = level.nodes[x].nodes();
        let second = level.nodes[y].nodes();
        let all = crate::leiden::members(level.nodes);
        assert(all[x].disjoint(all[y]));
        assert(level.full_weight(x, y) == self.full_between(first, second));
        let left = |a: int| sum_in(n, second, |b: int| self.full_weight(a, b));
        let right = |a: int|
            sum_in(n, second, |b: int| self.exact_weight(a as usize, b as usize));
        assert forall|a: int| 0 <= a < n && first.contains(a as usize) implies #[trigger] left(a)
            == right(a) by {
            let full = |b: int| self.full_weight(a, b);
            let plain = |b: int| self.exact_weight(a as usize, b as usize);
            assert forall|b: int| 0 <= b < n && second.contains(b as usize) implies #[trigger] full(
                b,
            ) == plain(b) by {}
            lemma_same_in(n, second, full, plain);
        }
        lemma_same_in(n, first, left, right);
    }
}

/// On every level of a hierarchy the weight between two communities is that of all edges
/// between their nodes, and the weight inside a community, counted from both ends, is that
/// of all edges between its nodes and of what is inside them; where adding up weights
/// needs no rounding.
pub proof fn law_levels_weigh<N, E, O: ModularityOptimizer>(
    graph: GraphView<N, E>,
    levels: Seq<GraphView<Community, ()>>,
    optimizers: Seq<O>,
    judges: Seq<Seq<&mut O>>,
    i: int,
)
    requires
        graph.wf(),
        graph.nodes.len() <= u32::MAX,
        crate::leiden::hierarchy(graph, levels, optimizers, judges),
        0 <= i < levels.len(),
        graph.levels_unrounded(levels, i),
    ensures
        forall|x: int, y: int|
            0 <= x < levels[i].nodes.len() && 0 <= y < levels[i].nodes.len() && x != y
                ==> #[trigger] levels[i].exact_weight(x as usize, y as usize)
                == graph.weight_between(levels[i].nodes[x].nodes(), levels[i].nodes[y].nodes()),
        forall|x: int|
            0 <= x < levels[i].nodes.len() ==> 2 * (#[trigger] levels[i].inner[x]).amount()
                == graph.full_between(levels[i].nodes[x].nodes(), levels[i].nodes[x].nodes()),
{
    lemma_levels_weighed(graph, levels, optimizers, judges, i);
    crate::leiden_laws::law_levels_span(graph, levels, optimizers, judges, i);
    let level = levels[i];
    assert(level.wf());
    assert forall|x: int, y: int|
        0 <= x < level.nodes.len() && 0 <= y < level.nodes.len() && x != y
            implies #[trigger] level.exact_weight(x as usize, y as usize) == graph.weight_between(
        level.nodes[x].nodes(),
        level.nodes[y].nodes(),
    ) by {
        graph.lemma_weighed_edges(level, x, y);
    }
    assert forall|x: int| 0 <= x < level.nodes.len() implies 2 * (
    #[trigger] level.inner[x]).amount() == graph.full_between(
        level.nodes[x].nodes(),
        level.nodes[x].nodes(),
    ) by {
        assert(level.full_weight(x, x) == graph.full_between(
            level.nodes[x].nodes(),
            level.nodes[x].nodes(),
        ));
        if level.adjacent(x as usize, x as usize) {
            assert(level.ids.contains_key((x as usize, x as usize)));
        }
    }
}

proof fn lemma_levels_weighed<N, E, O: ModularityOptimizer>(
    graph: GraphView<N, E>,
    levels: Seq<GraphView<Community, ()>>,
    optimizers: Seq<O>,
    judges: Seq<Seq<&mut O>>,
    i: int,
)
    requires
        graph.wf(),
        graph.nodes.len() <= u32::MAX,
        crate::leiden::hierarchy(graph, levels, optimizers, judges),
        0 <= i < levels.len(),
        graph.levels_unrounded(levels, i),
    ensures
        graph.weighed(levels[i]),
    decreases i,
{
    if i == 0 {
        assert(levels[0].wf());
        graph.lemma_founded_weighed(optimizers[0], judges[0], levels[0], optimizers[1]);
    } else {
        lemma_levels_weighed(graph, levels, optimizers, judges, i - 1);
        crate::leiden_laws::law_levels_span(graph, levels, optimizers, judges, i - 1);
        assert(crate::leiden::rises(levels, optimizers, judges, i));
        assert(levels[i - 1].wf());
        assert(levels[i].wf());
        graph.lemma_raised_weighed(
            levels[i - 1],
            optimizers[i],
            judges[i],
            levels[i],
            optimizers[i + 1],
        );
    }
}

} // verus!
