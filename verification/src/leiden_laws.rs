//! What holds of every level of communities.

use crate::community::Community;
use crate::graph::GraphView;
use crate::optimizer::ModularityOptimizer;
use crate::tables::{CommunityId, NodeSet};
use vstd::prelude::*;

verus! {

impl<N, E> GraphView<N, E> {
    proof fn lemma_bridged_to_nodes(
        self,
        parts: Seq<Set<usize>>,
        g: GraphView<Community, ()>,
        i: usize,
        b: int,
    )
        ensures
            self.bridged_to(parts, g, i, b).nodes == g.nodes,
        decreases b,
    {
        if i + 1 < b {
            self.lemma_bridged_to_nodes(parts, g, i, b - 1);
        }
    }

    pub(crate) proof fn lemma_bridged_below_nodes(
        self,
        parts: Seq<Set<usize>>,
        g: GraphView<Community, ()>,
        i: int,
    )
        ensures
            self.bridged_below(parts, g, i).nodes == g.nodes,
        decreases i,
    {
        if 0 < i {
            self.lemma_bridged_below_nodes(parts, g, i - 1);
            let node = (i - 1) as usize;
            self.lemma_bridged_to_nodes(
                parts,
                self.bridged_below(parts, g, i - 1).with_inner(
                    crate::compress::place(parts, node) as usize,
                    self.inner[node as int],
                ),
                node,
                self.nodes.len() as int,
            );
        }
    }

    /// The sets of nodes that a graph is parted into are a partition of its nodes, and each
    /// of them is connected.
    pub proof fn law_parted_partitions<O: ModularityOptimizer>(
        self,
        before: O,
        judges: Seq<&mut O>,
        parts: Seq<Set<usize>>,
        after: O,
    )
        requires
            self.parted(before, judges, parts, after),
            self.nodes.len() <= usize::MAX,
        ensures
            crate::refine::partitions(parts, crate::refine::numbers(self.nodes.len())),
            parts.len() <= self.nodes.len(),
            forall|k: int| 0 <= k < parts.len() ==> self.connected(#[trigger] parts[k]),
    {
        reveal(GraphView::parted);
        let labels = choose|labels: Map<usize, CommunityId>|
            {
                &&& #[trigger] self.assigns(labels)
                &&& self.optimized(self.initial(), before, labels, after, judges)
                &&& self.refined(labels, parts)
            };
        assert(labels.dom() =~= crate::refine::numbers(self.nodes.len())) by {
            assert forall|node: usize| #[trigger]
                labels.dom().contains(node) == crate::refine::numbers(self.nodes.len()).contains(
                    node,
                ) by {
                assert(labels.contains_key(node) <==> node < self.nodes.len());
            }
        }
        crate::refine::lemma_numbers(self.nodes.len());
        crate::refine::lemma_partition_size(parts, crate::refine::numbers(self.nodes.len()));
    }

    /// On the first level each node is in one community, and there are no more
    /// communities than nodes.
    pub proof fn law_founded_divides<O: ModularityOptimizer>(
        self,
        before: O,
        judges: Seq<&mut O>,
        made: GraphView<Community, ()>,
        after: O,
    )
        requires
            self.founded(before, judges, made, after),
            self.nodes.len() <= usize::MAX,
        ensures
            crate::leiden::divides(made.nodes, self.nodes.len()),
            made.nodes.len() <= self.nodes.len(),
    {
        let sets = choose|sets: Seq<NodeSet>|
            {
                &&& #[trigger] self.parted(before, judges, crate::refine::views(sets), after)
                &&& made == self.bridged(
                    crate::refine::views(sets),
                    crate::compress::first_level(sets),
                )
            };
        let parts = crate::refine::views(sets);
        let nodes = crate::compress::first_level(sets);
        self.law_parted_partitions(before, judges, parts, after);
        self.lemma_bridged_below_nodes(
            parts,
            crate::compress::nodes_alone(nodes),
            self.nodes.len() as int,
        );
        assert(crate::leiden::members(nodes) =~= parts);
    }
}

/// The nodes of a community made of others are theirs, each in one place.
pub(crate) proof fn lemma_merges(nodes: Seq<Community>, part: Set<usize>, community: Community)
    requires
        crate::compress::merges(nodes, part, community),
        forall|c: usize| part.contains(c) ==> c < nodes.len(),
        forall|i: int| 0 <= i < nodes.len() ==> (#[trigger] nodes[i]).distinct(),
        forall|i: int, j: int|
            0 <= i < j < nodes.len() ==> (#[trigger] nodes[i]).nodes().disjoint(
                (#[trigger] nodes[j]).nodes(),
            ),
    ensures
        community.distinct(),
        forall|node: usize, c: usize|
            part.contains(c) && #[trigger] nodes[c as int].nodes().contains(node)
                ==> community.nodes().contains(node),
        forall|node: usize| #[trigger]
            community.nodes().contains(node) ==> exists|c: usize|
                part.contains(c) && #[trigger] nodes[c as int].nodes().contains(node),
{
    let order = choose|order: Seq<usize>| #[trigger]
        crate::tables::enumerates(order, part) && crate::compress::combines(
            nodes,
            order,
            community,
        );
    assert forall|k: int| 0 <= k < order.len() implies #[trigger] order[k] < nodes.len()
        && part.contains(order[k]) by {
        assert(order.to_set().contains(order[k]));
    }
    assert forall|node: usize, c: usize|
        part.contains(c) && #[trigger] nodes[c as int].nodes().contains(
            node,
        ) implies community.nodes().contains(node) by {
        assert(order.to_set().contains(c));
        let k = choose|k: int| 0 <= k < order.len() && order[k] == c;
        if order.len() != 1 {
            let communities = community->LNCommunity_0@;
            assert(communities[k] == nodes[c as int]);
        }
    }
    assert forall|node: usize| #[trigger] community.nodes().contains(node) implies exists|c: usize|
        part.contains(c) && #[trigger] nodes[c as int].nodes().contains(node) by {
        if order.len() == 1 {
            assert(nodes[order[0] as int].nodes().contains(node));
        } else {
            let communities = community->LNCommunity_0@;
            let k = choose|k: int|
                0 <= k < communities.len() && (#[trigger] communities[k]).nodes().contains(node);
            assert(nodes[order[k] as int].nodes().contains(node));
        }
    }
    if order.len() != 1 {
        let communities = community->LNCommunity_0@;
        assert forall|i: int| 0 <= i < communities.len() implies (
        #[trigger] communities[i]).distinct() by {
            assert(communities[i] == nodes[order[i] as int]);
        }
        assert forall|i: int, j: int| 0 <= i < j < communities.len() implies (
        #[trigger] communities[i]).nodes().disjoint((#[trigger] communities[j]).nodes()) by {
            let a = order[i] as int;
            let b = order[j] as int;
            assert(order[i] != order[j]);
            if a < b {
                assert(nodes[a].nodes().disjoint(nodes[b].nodes()));
            } else {
                assert(nodes[b].nodes().disjoint(nodes[a].nodes()));
            }
        }
    } else {
        assert(order[0] < nodes.len());
    }
}

/// Communities made of communities that divide the nodes divide them too.
proof fn lemma_next_level_divides(
    nodes: Seq<Community>,
    n: nat,
    parts: Seq<Set<usize>>,
    communities: Seq<Community>,
)
    requires
        crate::leiden::divides(nodes, n),
        crate::refine::partitions(parts, crate::refine::numbers(nodes.len())),
        nodes.len() <= usize::MAX,
        crate::compress::next_level(nodes, parts, communities),
    ensures
        crate::leiden::divides(communities, n),
{
    let low = crate::leiden::members(nodes);
    let high = crate::leiden::members(communities);
    let all = crate::refine::numbers(n);
    let indices = crate::refine::numbers(nodes.len());
    assert forall|i: int, j: int| 0 <= i < j < nodes.len() implies (
    #[trigger] nodes[i]).nodes().disjoint((#[trigger] nodes[j]).nodes()) by {
        assert(low[i].disjoint(low[j]));
    }
    assert forall|i: int| 0 <= i < communities.len() implies (
    #[trigger] communities[i]).distinct() && high[i] != Set::<usize>::empty() && high[i].subset_of(
        all,
    ) by {
        assert forall|c: usize| parts[i].contains(c) implies c < nodes.len() by {
            assert(indices.contains(c));
        }
        assert(crate::compress::merges(nodes, parts[i], communities[i]));
        lemma_merges(nodes, parts[i], communities[i]);
        assert(parts[i] != Set::<usize>::empty());
        if forall|c: usize| !parts[i].contains(c) {
            assert(parts[i] =~= Set::empty());
        }
        let c = choose|c: usize| parts[i].contains(c);
        assert(low[c as int] != Set::<usize>::empty());
        if forall|node: usize| !low[c as int].contains(node) {
            assert(low[c as int] =~= Set::empty());
        }
        let node = choose|node: usize| low[c as int].contains(node);
        assert(nodes[c as int].nodes().contains(node));
        assert(high[i].contains(node));
        assert forall|node: usize| high[i].contains(node) implies all.contains(node) by {
            assert(communities[i].nodes().contains(node));
            let c = choose|c: usize|
                parts[i].contains(c) && #[trigger] nodes[c as int].nodes().contains(node);
            assert(low[c as int].contains(node));
        }
    }
    assert forall|i: int, j: int| 0 <= i < j < high.len() implies (#[trigger] high[i]).disjoint(
        #[trigger] high[j],
    ) by {
        assert forall|node: usize| high[i].contains(node) implies !high[j].contains(node) by {
            if high[j].contains(node) {
                assert forall|c: usize| parts[i].contains(c) implies c < nodes.len() by {
                    assert(indices.contains(c));
                }
                assert forall|c: usize| parts[j].contains(c) implies c < nodes.len() by {
                    assert(indices.contains(c));
                }
                assert(crate::compress::merges(nodes, parts[i], communities[i]));
                assert(crate::compress::merges(nodes, parts[j], communities[j]));
                lemma_merges(nodes, parts[i], communities[i]);
                lemma_merges(nodes, parts[j], communities[j]);
                assert(communities[i].nodes().contains(node));
                assert(communities[j].nodes().contains(node));
                let c = choose|c: usize|
                    parts[i].contains(c) && #[trigger] nodes[c as int].nodes().contains(node);
                let d = choose|d: usize|
                    parts[j].contains(d) && #[trigger] nodes[d as int].nodes().contains(node);
                assert(parts[i].disjoint(parts[j]));
                assert(c != d);
                if c < d {
                    assert(low[c as int].disjoint(low[d as int]));
                } else {
                    assert(low[d as int].disjoint(low[c as int]));
                }
            }
        }
    }
    assert forall|node: usize| all.contains(node) implies exists|i: int|
        0 <= i < high.len() && (#[trigger] high[i]).contains(node) by {
        let c = choose|c: int| 0 <= c < low.len() && (#[trigger] low[c]).contains(node);
        let number = c as usize;
        assert(indices.contains(number));
        let i = choose|i: int| 0 <= i < parts.len() && (#[trigger] parts[i]).contains(number);
        assert forall|c: usize| parts[i].contains(c) implies c < nodes.len() by {
            assert(indices.contains(c));
        }
        assert(crate::compress::merges(nodes, parts[i], communities[i]));
        lemma_merges(nodes, parts[i], communities[i]);
        assert(nodes[number as int].nodes().contains(node));
        assert(high[i].contains(node));
    }
}

impl GraphView<Community, ()> {
    /// Where each node is in one community on one level, it is so on the next, which has
    /// fewer communities, or is the same.
    pub proof fn law_raised_divides<O: ModularityOptimizer>(
        self,
        before: O,
        judges: Seq<&mut O>,
        made: GraphView<Community, ()>,
        after: O,
        n: nat,
    )
        requires
            self.raised(before, judges, made, after),
            self.nodes.len() <= usize::MAX,
            crate::leiden::divides(self.nodes, n),
        ensures
            crate::leiden::divides(made.nodes, n),
            made.nodes.len() < self.nodes.len() || made == self,
    {
        let parts = choose|parts: Seq<Set<usize>>|
            {
                &&& #[trigger] self.parted(before, judges, parts, after)
                &&& if parts.len() == self.nodes.len() {
                    made == self
                } else {
                    &&& crate::compress::next_level(self.nodes, parts, made.nodes)
                    &&& made == self.bridged(parts, made.nodes)
                }
            };
        self.law_parted_partitions(before, judges, parts, after);
        if parts.len() != self.nodes.len() {
            lemma_next_level_divides(self.nodes, n, parts, made.nodes);
        }
    }
}

impl<N, E> GraphView<N, E> {
    /// An edge of the graph joins a node of community `x` and a node of community `y`.
    pub open spec fn touches(self, communities: Seq<Community>, x: usize, y: usize) -> bool {
        &&& x < communities.len()
        &&& y < communities.len()
        &&& exists|a: usize, b: usize| #[trigger]
            self.adjacent(a, b) && communities[x as int].nodes().contains(a) && communities[y as int].nodes().contains(
                b,
            )
    }

    /// `level` divides the nodes of the graph, each of its communities is connected, and two
    /// communities are neighbours if and only if an edge joins their nodes.
    pub open spec fn spanned(self, level: GraphView<Community, ()>) -> bool {
        &&& crate::leiden::divides(level.nodes, self.nodes.len())
        &&& forall|x: int|
            0 <= x < level.nodes.len() ==> self.connected((#[trigger] level.nodes[x]).nodes())
        &&& forall|x: usize, y: usize| #[trigger]
            level.adjacent(x, y) <==> x != y && self.touches(level.nodes, x, y)
    }

    /// The first level spans the graph.
    pub proof fn law_founded_spans<O: ModularityOptimizer>(
        self,
        before: O,
        judges: Seq<&mut O>,
        made: GraphView<Community, ()>,
        after: O,
    )
        requires
            self.wf(),
            self.nodes.len() <= u32::MAX,
            self.founded(before, judges, made, after),
        ensures
            self.spanned(made),
    {
        self.law_founded_divides(before, judges, made, after);
        let sets = choose|sets: Seq<NodeSet>|
            {
                &&& #[trigger] self.parted(before, judges, crate::refine::views(sets), after)
                &&& made == self.bridged(
                    crate::refine::views(sets),
                    crate::compress::first_level(sets),
                )
            };
        let parts = crate::refine::views(sets);
        let nodes = crate::compress::first_level(sets);
        self.law_parted_partitions(before, judges, parts, after);
        self.lemma_bridged_below_nodes(
            parts,
            crate::compress::nodes_alone(nodes),
            self.nodes.len() as int,
        );
        assert forall|x: int| 0 <= x < made.nodes.len() implies self.connected(
            (#[trigger] made.nodes[x]).nodes(),
        ) by {
            assert(made.nodes[x].nodes() == parts[x]);
        }
        assert forall|x: usize, y: usize| #[trigger] made.adjacent(x, y) <==> x != y
            && self.touches(made.nodes, x, y) by {
            self.law_bridges(parts, nodes, x, y);
            if made.adjacent(x, y) {
                let (a, b) = choose|a: usize, b: usize| #[trigger] self.crosses(parts, a, b, x, y);
                assert(self.adjacent(a, b));
                assert(made.nodes[x as int].nodes() == parts[x as int]);
                assert(made.nodes[y as int].nodes() == parts[y as int]);
            }
            if x != y && self.touches(made.nodes, x, y) {
                let (a, b) = choose|a: usize, b: usize| #[trigger]
                    self.adjacent(a, b) && made.nodes[x as int].nodes().contains(a)
                        && made.nodes[y as int].nodes().contains(b);
                assert(self.crosses(parts, a, b, x, y));
            }
        }
    }

    /// A path in a set is a path in a larger set.
    proof fn lemma_reaches_within(self, within: Set<usize>, whole: Set<usize>, a: usize, b: usize)
        requires
            self.reaches(within, a, b),
            within.subset_of(whole),
        ensures
            self.reaches(whole, a, b),
    {
        let path = choose|path: Seq<usize>| #[trigger]
            self.is_path(within, path) && path[0] == a && path.last() == b;
        assert(self.is_path(whole, path));
    }

    /// Along a path of communities within `whole`, paths within it join all nodes.
    proof fn lemma_path_connected(
        self,
        level: GraphView<Community, ()>,
        within: Set<usize>,
        whole: Set<usize>,
        path: Seq<usize>,
        k: int,
        a: usize,
        b: usize,
    )
        requires
            self.spanned(level),
            level.is_path(within, path),
            forall|c: usize| #[trigger] within.contains(c) ==> c < level.nodes.len()
                && level.nodes[c as int].nodes().subset_of(whole),
            0 <= k < path.len(),
            level.nodes[path[0] as int].nodes().contains(a),
            level.nodes[path[k] as int].nodes().contains(b),
        ensures
            self.reaches(whole, a, b),
        decreases k,
    {
        assert(within.contains(path[0]));
        assert(within.contains(path[k]));
        let here = level.nodes[path[k] as int].nodes();
        assert(self.connected(here));
        if k == 0 {
            assert(here.contains(a) && here.contains(b));
            self.lemma_reaches_within(here, whole, a, b);
        } else {
            let x = path[k - 1];
            let y = path[k];
            assert(within.contains(x));
            assert(level.adjacent(x, y));
            assert(self.touches(level.nodes, x, y));
            let (c, d) = choose|c: usize, d: usize| #[trigger]
                self.adjacent(c, d) && level.nodes[x as int].nodes().contains(c)
                    && level.nodes[y as int].nodes().contains(d);
            self.lemma_path_connected(level, within, whole, path, k - 1, a, c);
            assert(whole.contains(d));
            self.lemma_reaches_step(whole, a, c, d);
            assert(here.contains(d) && here.contains(b));
            self.lemma_reaches_within(here, whole, d, b);
            self.lemma_reaches_on(whole, a, d, b);
        }
    }

    /// Where one level spans the graph, so does the next.
    pub proof fn law_raised_spans<O: ModularityOptimizer>(
        self,
        level: GraphView<Community, ()>,
        before: O,
        judges: Seq<&mut O>,
        made: GraphView<Community, ()>,
        after: O,
    )
        requires
            self.wf(),
            level.wf(),
            level.nodes.len() <= u32::MAX,
            self.spanned(level),
            level.raised(before, judges, made, after),
        ensures
            self.spanned(made),
    {
        level.law_raised_divides(before, judges, made, after, self.nodes.len());
        let parts = choose|parts: Seq<Set<usize>>|
            {
                &&& #[trigger] level.parted(before, judges, parts, after)
                &&& if parts.len() == level.nodes.len() {
                    made == level
                } else {
                    &&& crate::compress::next_level(level.nodes, parts, made.nodes)
                    &&& made == level.bridged(parts, made.nodes)
                }
            };
        if parts.len() != level.nodes.len() {
            level.law_parted_partitions(before, judges, parts, after);
            let indices = crate::refine::numbers(level.nodes.len());
            assert forall|i: int, j: int| 0 <= i < j < level.nodes.len() implies (
            #[trigger] level.nodes[i]).nodes().disjoint((#[trigger] level.nodes[j]).nodes()) by {
                let low = crate::leiden::members(level.nodes);
                assert(low[i].disjoint(low[j]));
            }
            assert forall|x: int| 0 <= x < parts.len() implies #[trigger] origins(
                level.nodes,
                parts[x],
                made.nodes[x],
            ) by {
                assert(crate::compress::merges(level.nodes, parts[x], made.nodes[x]));
                assert forall|c: usize| parts[x].contains(c) implies c < level.nodes.len() by {
                    assert(indices.contains(c));
                }
                lemma_merges(level.nodes, parts[x], made.nodes[x]);
            }
            assert forall|x: int| 0 <= x < made.nodes.len() implies self.connected(
                (#[trigger] made.nodes[x]).nodes(),
            ) by {
                let whole = made.nodes[x].nodes();
                assert(origins(level.nodes, parts[x], made.nodes[x]));
                assert forall|c: usize| #[trigger] parts[x].contains(c) implies c
                    < level.nodes.len() && level.nodes[c as int].nodes().subset_of(whole) by {
                    assert(indices.contains(c));
                    assert forall|node: usize| level.nodes[c as int].nodes().contains(
                        node,
                    ) implies whole.contains(node) by {}
                }
                assert forall|a: usize, b: usize| #[trigger]
                    whole.contains(a) && #[trigger] whole.contains(b) implies self.reaches(
                    whole,
                    a,
                    b,
                ) by {
                    let c = choose|c: usize|
                        parts[x].contains(c) && #[trigger] level.nodes[c as int].nodes().contains(
                            a,
                        );
                    let d = choose|d: usize|
                        parts[x].contains(d) && #[trigger] level.nodes[d as int].nodes().contains(
                            b,
                        );
                    assert(level.connected(parts[x]));
                    assert(parts[x].contains(c) && parts[x].contains(d));
                    assert(level.reaches(parts[x], c, d));
                    let path = choose|path: Seq<usize>| #[trigger]
                        level.is_path(parts[x], path) && path[0] == c && path.last() == d;
                    self.lemma_path_connected(
                        level,
                        parts[x],
                        whole,
                        path,
                        path.len() - 1,
                        a,
                        b,
                    );
                }
            }
            assert forall|x: usize, y: usize| #[trigger] made.adjacent(x, y) implies x != y
                && self.touches(made.nodes, x, y) by {
                level.law_bridges(parts, made.nodes, x, y);
                let (c, d) = choose|c: usize, d: usize| #[trigger]
                    level.crosses(parts, c, d, x, y);
                assert(level.adjacent(c, d));
                assert(self.touches(level.nodes, c, d));
                let (a, b) = choose|a: usize, b: usize| #[trigger]
                    self.adjacent(a, b) && level.nodes[c as int].nodes().contains(a)
                        && level.nodes[d as int].nodes().contains(b);
                assert(origins(level.nodes, parts[x as int], made.nodes[x as int]));
                assert(origins(level.nodes, parts[y as int], made.nodes[y as int]));
                assert(made.nodes[x as int].nodes().contains(a));
                assert(made.nodes[y as int].nodes().contains(b));
            }
            assert forall|x: usize, y: usize|
                x != y && self.touches(made.nodes, x, y) implies #[trigger] made.adjacent(
                x,
                y,
            ) by {
                level.law_bridges(parts, made.nodes, x, y);
                let (a, b) = choose|a: usize, b: usize| #[trigger]
                    self.adjacent(a, b) && made.nodes[x as int].nodes().contains(a)
                        && made.nodes[y as int].nodes().contains(b);
                assert(origins(level.nodes, parts[x as int], made.nodes[x as int]));
                assert(origins(level.nodes, parts[y as int], made.nodes[y as int]));
                let c = choose|c: usize|
                    parts[x as int].contains(c) && #[trigger] level.nodes[c as int].nodes().contains(
                        a,
                    );
                let d = choose|d: usize|
                    parts[y as int].contains(d) && #[trigger] level.nodes[d as int].nodes().contains(
                        b,
                    );
                assert(parts[x as int].disjoint(parts[y as int]));
                assert(indices.contains(c) && indices.contains(d));
                assert(self.touches(level.nodes, c, d));
                assert(level.adjacent(c, d));
                assert(level.crosses(parts, c, d, x, y));
            }
        }
    }
}

/// The nodes of `community` are those of the communities numbered in `part`.
pub open spec fn origins(nodes: Seq<Community>, part: Set<usize>, community: Community) -> bool {
    &&& forall|node: usize, c: usize|
        part.contains(c) && #[trigger] nodes[c as int].nodes().contains(node)
            ==> community.nodes().contains(node)
    &&& forall|node: usize| #[trigger]
        community.nodes().contains(node) ==> exists|c: usize|
            part.contains(c) && #[trigger] nodes[c as int].nodes().contains(node)
}

/// Every level of a hierarchy divides the nodes of the graph into connected communities. A
/// level has no more communities than the one below it.
pub proof fn law_levels_span<N, E, O: ModularityOptimizer>(
    graph: GraphView<N, E>,
    levels: Seq<GraphView<Community, ()>>,
    optimizers: Seq<O>,
    judges: Seq<Seq<&mut O>>,
    i: int,
)
    requires
        graph.wf(),
        graph.nodes.len() <= u32::MAX,
        crate::leiden::hierarchy(graph, levels, optimizers, judges),
        0 <= i < levels.len(),
    ensures
        graph.spanned(levels[i]),
        levels[i].nodes.len() <= graph.nodes.len(),
        0 < i ==> levels[i].nodes.len() <= levels[i - 1].nodes.len(),
    decreases i,
{
    if i == 0 {
        graph.law_founded_divides(optimizers[0], judges[0], levels[0], optimizers[1]);
        graph.law_founded_spans(optimizers[0], judges[0], levels[0], optimizers[1]);
    } else {
        law_levels_span(graph, levels, optimizers, judges, i - 1);
        assert(crate::leiden::rises(levels, optimizers, judges, i));
        assert(levels[i - 1].wf());
        levels[i - 1].law_raised_divides(
            optimizers[i],
            judges[i],
            levels[i],
            optimizers[i + 1],
            graph.nodes.len(),
        );
        graph.law_raised_spans(
            levels[i - 1],
            optimizers[i],
            judges[i],
            levels[i],
            optimizers[i + 1],
        );
    }
}

/// Each community is part of one community on the level above it.
pub proof fn law_levels_nest<N, E, O: ModularityOptimizer>(
    graph: GraphView<N, E>,
    levels: Seq<GraphView<Community, ()>>,
    optimizers: Seq<O>,
    judges: Seq<Seq<&mut O>>,
    i: int,
    x: int,
)
    requires
        graph.wf(),
        graph.nodes.len() <= u32::MAX,
        crate::leiden::hierarchy(graph, levels, optimizers, judges),
        0 < i < levels.len(),
        0 <= x < levels[i - 1].nodes.len(),
    ensures
        exists|y: int|
            0 <= y < levels[i].nodes.len() && levels[i - 1].nodes[x].nodes().subset_of(
                (#[trigger] levels[i].nodes[y]).nodes(),
            ),
{
    let level = levels[i - 1];
    let made = levels[i];
    law_levels_span(graph, levels, optimizers, judges, i - 1);
    assert(crate::leiden::rises(levels, optimizers, judges, i));
    let parts = choose|parts: Seq<Set<usize>>|
        {
            &&& #[trigger] level.parted(optimizers[i], judges[i], parts, optimizers[i + 1])
            &&& if parts.len() == level.nodes.len() {
                made == level
            } else {
                &&& crate::compress::next_level(level.nodes, parts, made.nodes)
                &&& made == level.bridged(parts, made.nodes)
            }
        };
    if parts.len() == level.nodes.len() {
        assert(level.nodes[x].nodes().subset_of(made.nodes[x].nodes()));
    } else {
        level.law_parted_partitions(optimizers[i], judges[i], parts, optimizers[i + 1]);
        let indices = crate::refine::numbers(level.nodes.len());
        let number = x as usize;
        assert(indices.contains(number));
        let y = choose|y: int| 0 <= y < parts.len() && (#[trigger] parts[y]).contains(number);
        assert(crate::compress::merges(level.nodes, parts[y], made.nodes[y]));
        assert forall|c: usize| parts[y].contains(c) implies c < level.nodes.len() by {
            assert(indices.contains(c));
        }
        assert forall|j: int, k: int| 0 <= j < k < level.nodes.len() implies (
        #[trigger] level.nodes[j]).nodes().disjoint((#[trigger] level.nodes[k]).nodes()) by {
            let low = crate::leiden::members(level.nodes);
            assert(low[j].disjoint(low[k]));
        }
        lemma_merges(level.nodes, parts[y], made.nodes[y]);
        assert forall|node: usize| level.nodes[x].nodes().contains(
            node,
        ) implies made.nodes[y].nodes().contains(node) by {
            assert(level.nodes[number as int].nodes().contains(node));
        }
        assert(level.nodes[x].nodes().subset_of(made.nodes[y].nodes()));
    }
}

/// Each level but the last has fewer communities than the one below it, so there are at
/// most two levels more than nodes.
pub proof fn law_height<N, E, O: ModularityOptimizer>(
    graph: GraphView<N, E>,
    levels: Seq<GraphView<Community, ()>>,
    optimizers: Seq<O>,
    judges: Seq<Seq<&mut O>>,
)
    requires
        graph.wf(),
        graph.nodes.len() <= u32::MAX,
        crate::leiden::hierarchy(graph, levels, optimizers, judges),
    ensures
        levels.len() <= graph.nodes.len() + 2,
{
    lemma_height(graph, levels, optimizers, judges, levels.len() - 2);
}

proof fn lemma_height<N, E, O: ModularityOptimizer>(
    graph: GraphView<N, E>,
    levels: Seq<GraphView<Community, ()>>,
    optimizers: Seq<O>,
    judges: Seq<Seq<&mut O>>,
    i: int,
)
    requires
        graph.wf(),
        graph.nodes.len() <= u32::MAX,
        crate::leiden::hierarchy(graph, levels, optimizers, judges),
        0 <= i < levels.len() - 1,
    ensures
        levels[i].nodes.len() + i <= graph.nodes.len(),
    decreases i,
{
    if i == 0 {
        law_levels_span(graph, levels, optimizers, judges, 0);
    } else {
        lemma_height(graph, levels, optimizers, judges, i - 1);
        assert(crate::leiden::shrinks(levels, i));
    }
}

} // verus!
