//! The Leiden algorithm: communities, communities of communities, and so on.

use crate::community::Community;
use crate::compress::{compress_l1, compress_ln};
use crate::graph::{Graph, GraphView};
use crate::optimizer::ModularityOptimizer;
use crate::tables::{assignments_insert, assignments_new, CommunityAssignments, CommunityId, NodeSet};
use vstd::prelude::*;

verus! {

/// The nodes of each of some communities.
pub open spec fn members(communities: Seq<Community>) -> Seq<Set<usize>> {
    Seq::new(communities.len(), |i: int| communities[i].nodes())
}

/// Each of `n` nodes is in one of `communities`, and there in one place only.
pub open spec fn divides(communities: Seq<Community>, n: nat) -> bool {
    &&& crate::refine::partitions(members(communities), crate::refine::numbers(n))
    &&& forall|i: int| 0 <= i < communities.len() ==> (#[trigger] communities[i]).distinct()
}

impl<N, E> GraphView<N, E> {
    /// Each node is in a community of its own, with the node's number for its label.
    pub open spec fn initial(self) -> Map<usize, CommunityId> {
        Map::new(|node: usize| node < self.nodes.len(), |node: usize| node as CommunityId)
    }

    /// Optimizing the initial assignment and refining it makes `parts`.
    #[verifier::opaque]
    pub open spec fn parted<O: ModularityOptimizer>(
        self,
        before: O,
        judges: Seq<&mut O>,
        parts: Seq<Set<usize>>,
        after: O,
    ) -> bool {
        exists|labels: Map<usize, CommunityId>|
            {
                &&& #[trigger] self.assigns(labels)
                &&& self.optimized(self.initial(), before, labels, after, judges)
                &&& self.refined(labels, parts)
            }
    }

    /// `made` is the graph of the communities found among the nodes.
    pub open spec fn founded<O: ModularityOptimizer>(
        self,
        before: O,
        judges: Seq<&mut O>,
        made: GraphView<Community, ()>,
        after: O,
    ) -> bool {
        exists|sets: Seq<NodeSet>|
            {
                &&& #[trigger] self.parted(before, judges, crate::refine::views(sets), after)
                &&& made == self.bridged(
                    crate::refine::views(sets),
                    crate::compress::first_level(sets),
                )
            }
    }
}

impl GraphView<Community, ()> {
    /// `made` is the graph of the communities found among communities, or the graph
    /// itself where each of them stays alone.
    pub open spec fn raised<O: ModularityOptimizer>(
        self,
        before: O,
        judges: Seq<&mut O>,
        made: GraphView<Community, ()>,
        after: O,
    ) -> bool {
        exists|parts: Seq<Set<usize>>|
            {
                &&& #[trigger] self.parted(before, judges, parts, after)
                &&& if parts.len() == self.nodes.len() {
                    made == self
                } else {
                    &&& crate::compress::next_level(self.nodes, parts, made.nodes)
                    &&& made == self.bridged(parts, made.nodes)
                }
            }
    }
}

impl<N: Send + Sync, E: Send + Sync> Graph<N, E> {
    /// The assignment of each node to a community of its own.
    pub fn initial_community(&self) -> (assignments: CommunityAssignments)
        requires
            self@.nodes.len() <= u32::MAX,
        ensures
            assignments@ == self@.initial(),
            forall|node: usize| #[trigger]
                assignments@.contains_key(node) <==> node < self@.nodes.len(),
            forall|node: usize|
                node < self@.nodes.len() ==> (#[trigger] assignments@[node]) as int == node as int,
    {
        let count_nodes: u32 = self.count_nodes() as u32;
        let mut assignments: CommunityAssignments = assignments_new();
        let mut i: u32 = 0;
        while i < count_nodes
            invariant
                count_nodes == self@.nodes.len(),
                i <= count_nodes,
                assignments@ =~= Map::new(
                    |node: usize| node < i,
                    |node: usize| node as CommunityId,
                ),
            decreases count_nodes - i,
        {
            let _ = assignments_insert(&mut assignments, i as usize, i);
            i = i + 1;
        }
        assert(assignments@ =~= self@.initial());
        assignments
    }
}

/// The graph of the communities found among the nodes of a graph.
pub fn leiden_l1<N: Send + Sync, E: Send + Sync, O: ModularityOptimizer>(
    graph: &Graph<N, E>,
    optimizer: &mut O,
) -> (made: Graph<Community, ()>)
    requires
        graph.wf(),
        graph@.nodes.len() <= u32::MAX,
    ensures
        made.wf(),
        graph@.spanned(made@),
        made@.nodes.len() <= graph@.nodes.len(),
        exists|judges: Seq<&mut O>|
            {
                &&& #[trigger] graph@.founded(*old(optimizer), judges, made@, *final(optimizer))
                &&& judges.len() > 0 ==> *judges[0] == *old(optimizer) && *final(judges.last())
                    == *final(optimizer)
                &&& forall|j: int, k: int|
                    0 <= j && k == j + 1 && k < judges.len()
                        ==> *(#[trigger] judges[k]) == *final(#[trigger] judges[j])
            },
{
    let ghost before = *optimizer;
    let mut community_assignments: CommunityAssignments = graph.initial_community();
    assert(graph@.assigns(community_assignments@));
    graph.optimize_modularity(&mut community_assignments, optimizer);
    proof {
        graph@.lemma_assigns(community_assignments@);
    }
    let communities: Vec<NodeSet> = graph.refine(&community_assignments);
    let ghost sets = communities@;
    proof {
        crate::refine::lemma_partition_size(
            crate::refine::views(sets),
            community_assignments@.dom(),
        );
    }
    let made: Graph<Community, ()> = compress_l1(graph, communities);
    proof {
        let judges = choose|judges: Seq<&mut O>|
            {
                &&& #[trigger] graph@.optimized(
                    graph@.initial(),
                    before,
                    community_assignments@,
                    *optimizer,
                    judges,
                )
                &&& judges.len() > 0 ==> *judges[0] == before && *final(judges.last()) == *optimizer
                &&& forall|j: int, k: int|
                    0 <= j && k == j + 1 && k < judges.len()
                        ==> *(#[trigger] judges[k]) == *final(#[trigger] judges[j])
            };
        assert(graph@.parted(before, judges, crate::refine::views(sets), *optimizer)) by {
            reveal(GraphView::parted);
        }
        assert(graph@.founded(before, judges, made@, *optimizer));
        graph@.law_founded_divides(before, judges, made@, *optimizer);
        graph@.law_founded_spans(before, judges, made@, *optimizer);
    }
    made
}

/// The graph of the communities found among the communities of a graph.
pub fn leiden_ln<O: ModularityOptimizer>(graph: Graph<Community, ()>, optimizer: &mut O) -> (made: Graph<
    Community,
    (),
>)
    requires
        graph.wf(),
        graph@.nodes.len() <= u32::MAX,
    ensures
        made.wf(),
        exists|judges: Seq<&mut O>|
            {
                &&& #[trigger] graph@.raised(*old(optimizer), judges, made@, *final(optimizer))
                &&& judges.len() > 0 ==> *judges[0] == *old(optimizer) && *final(judges.last())
                    == *final(optimizer)
                &&& forall|j: int, k: int|
                    0 <= j && k == j + 1 && k < judges.len()
                        ==> *(#[trigger] judges[k]) == *final(#[trigger] judges[j])
            },
{
    let ghost before = *optimizer;
    let ghost view = graph@;
    let mut community_assignments: CommunityAssignments = graph.initial_community();
    assert(view.assigns(community_assignments@));
    graph.optimize_modularity(&mut community_assignments, optimizer);
    proof {
        view.lemma_assigns(community_assignments@);
    }
    let communities: Vec<NodeSet> = graph.refine(&community_assignments);
    let ghost parts = crate::refine::views(communities@);
    proof {
        crate::refine::lemma_partition_size(parts, community_assignments@.dom());
    }
    let made: Graph<Community, ()> = if communities.len() == graph.count_nodes() {
        graph
    } else {
        compress_ln(graph, communities)
    };
    proof {
        let judges = choose|judges: Seq<&mut O>|
            {
                &&& #[trigger] view.optimized(
                    view.initial(),
                    before,
                    community_assignments@,
                    *optimizer,
                    judges,
                )
                &&& judges.len() > 0 ==> *judges[0] == before && *final(judges.last()) == *optimizer
                &&& forall|j: int, k: int|
                    0 <= j && k == j + 1 && k < judges.len()
                        ==> *(#[trigger] judges[k]) == *final(#[trigger] judges[j])
            };
        assert(view.parted(before, judges, parts, *optimizer)) by {
            reveal(GraphView::parted);
        }
        assert(view.raised(before, judges, made@, *optimizer));
    }
    made
}

/// Level `i` is made of the level below it.
pub open spec fn rises<O: ModularityOptimizer>(
    levels: Seq<GraphView<Community, ()>>,
    optimizers: Seq<O>,
    judges: Seq<Seq<&mut O>>,
    i: int,
) -> bool {
    levels[i - 1].raised(optimizers[i], judges[i], levels[i], optimizers[i + 1])
}

/// Level `i` has fewer communities than the level below it.
pub open spec fn shrinks(levels: Seq<GraphView<Community, ()>>, i: int) -> bool {
    levels[i].nodes.len() < levels[i - 1].nodes.len()
}

/// `levels` are made of the graph, one after the other, each but the last with fewer
/// communities than the one below. The optimizer is `optimizers[i]` when level `i` is
/// begun, and `judges[i][k]` when it judges round `k` of it.
pub open spec fn hierarchy<N, E, O: ModularityOptimizer>(
    graph: GraphView<N, E>,
    levels: Seq<GraphView<Community, ()>>,
    optimizers: Seq<O>,
    judges: Seq<Seq<&mut O>>,
) -> bool {
    &&& levels.len() >= 2
    &&& optimizers.len() == levels.len() + 1
    &&& judges.len() == levels.len()
    &&& forall|i: int|
        0 <= i < levels.len() ==> (#[trigger] levels[i]).wf() && levels[i].edges.len()
            <= usize::MAX
    &&& graph.founded(optimizers[0], judges[0], levels[0], optimizers[1])
    &&& forall|i: int|
        0 < i < levels.len() ==> #[trigger] rises(levels, optimizers, judges, i)
    &&& forall|i: int| 0 < i < levels.len() - 1 ==> #[trigger] shrinks(levels, i)
}

/// There is no reason for one more level: the last has as many communities as the one
/// below it, or the limit of `max_iter` levels beyond the third is reached.
pub open spec fn complete(levels: Seq<GraphView<Community, ()>>, max_iter: Option<usize>) -> bool {
    let limit: Option<int> = match max_iter {
        Some(rounds) => Some(rounds + 3),
        None => None,
    };
    &&& limit is Some ==> levels.len() <= limit->0
    &&& !shrinks(levels, levels.len() - 1) || limit == Some(levels.len() as int)
}

/// One more level on top of a hierarchy.
proof fn lemma_one_more<N, E, O: ModularityOptimizer>(
    graph: GraphView<N, E>,
    levels: Seq<GraphView<Community, ()>>,
    optimizers: Seq<O>,
    judges: Seq<Seq<&mut O>>,
    level: GraphView<Community, ()>,
    optimizer: O,
    asked: Seq<&mut O>,
)
    requires
        hierarchy(graph, levels, optimizers, judges),
        shrinks(levels, levels.len() - 1),
        levels.last().raised(optimizers.last(), asked, level, optimizer),
        level.wf(),
        level.edges.len() <= usize::MAX,
    ensures
        hierarchy(graph, levels.push(level), optimizers.push(optimizer), judges.push(asked)),
{
    let levels2 = levels.push(level);
    let optimizers2 = optimizers.push(optimizer);
    let judges2 = judges.push(asked);
    assert forall|i: int| 0 < i < levels2.len() implies #[trigger] rises(
        levels2,
        optimizers2,
        judges2,
        i,
    ) by {
        if i < levels.len() {
            assert(rises(levels, optimizers, judges, i));
        }
    }
    assert forall|i: int| 0 < i < levels2.len() - 1 implies #[trigger] shrinks(levels2, i) by {
        assert(shrinks(levels, i));
    }
}

impl<N: Send + Sync, E: Send + Sync> Graph<N, E> {
    /// Finds communities among the nodes, communities of these, and so on, until a level
    /// has as many communities as the one below it. Where `max_iter` is given, at most
    /// that many levels are made beyond the third.
    pub fn leiden<O: ModularityOptimizer>(&self, max_iter: Option<usize>, optimizer: &mut O) -> (top: Graph<
        Community,
        (),
    >)
        requires
            self.wf(),
            self@.nodes.len() <= u32::MAX,
        ensures
            top.wf(),
            divides(top@.nodes, self@.nodes.len()),
            self@.spanned(top@),
            exists|
                levels: Seq<GraphView<Community, ()>>,
                optimizers: Seq<O>,
                judges: Seq<Seq<&mut O>>,
            |
                {
                    &&& #[trigger] hierarchy(self@, levels, optimizers, judges)
                    &&& complete(levels, max_iter)
                    &&& levels.last() == top@
                    &&& levels.len() >= 2
                    &&& max_iter is None ==> top@.nodes.len() == levels[levels.len()
                        - 2].nodes.len()
                    &&& max_iter is Some ==> levels.len() <= max_iter->0 + 3
                    &&& max_iter is Some && levels.len() < max_iter->0 + 3
                        ==> top@.nodes.len() == levels[levels.len() - 2].nodes.len()
                    &&& optimizers[0] == *old(optimizer)
                    &&& optimizers.last() == *final(optimizer)
                    &&& forall|i: int|
                        0 <= i < judges.len() && (#[trigger] judges[i]).len() > 0
                            ==> *judges[i][0] == optimizers[i] && *final(judges[i].last())
                            == optimizers[i + 1]
                    &&& forall|i: int, j: int, k: int|
                        0 <= i < judges.len() && 0 <= j && k == j + 1 && k < judges[i].len()
                            ==> *(#[trigger] judges[i][k]) == *final(#[trigger] judges[i][j])
                },
    {
        let ghost view = self@;
        let ghost first = *optimizer;
        let g: Graph<Community, ()> = leiden_l1(self, optimizer);
        let ghost level1 = g@;
        assert(level1.edges.len() == g.edges.len());
        let ghost second = *optimizer;
        let mut previous: usize = g.count_nodes();
        let mut high_level_graph: Graph<Community, ()> = leiden_ln(g, optimizer);
        let mut count: usize = high_level_graph.count_nodes();
        assert(high_level_graph@.edges.len() == high_level_graph.edges.len());
        let ghost mut levels: Seq<GraphView<Community, ()>> = seq![level1, high_level_graph@];
        let ghost mut optimizers: Seq<O> = seq![first, second, *optimizer];
        proof {
            let asked1 = choose|asked: Seq<&mut O>|
                {
                    &&& #[trigger] view.founded(first, asked, level1, second)
                    &&& asked.len() > 0 ==> *asked[0] == first && *final(asked.last()) == second
                    &&& forall|j: int, k: int|
                        0 <= j && k == j + 1 && k < asked.len()
                            ==> *(#[trigger] asked[k]) == *final(#[trigger] asked[j])
                };
            let asked2 = choose|asked: Seq<&mut O>|
                {
                    &&& #[trigger] level1.raised(second, asked, high_level_graph@, *optimizer)
                    &&& asked.len() > 0 ==> *asked[0] == second && *final(asked.last()) == *optimizer
                    &&& forall|j: int, k: int|
                        0 <= j && k == j + 1 && k < asked.len()
                            ==> *(#[trigger] asked[k]) == *final(#[trigger] asked[j])
                };
            level1.law_raised_divides(second, asked2, high_level_graph@, *optimizer, view.nodes.len());
            view.law_raised_spans(level1, second, asked2, high_level_graph@, *optimizer);
            let judges: Seq<Seq<&mut O>> = seq![asked1, asked2];
            assert(judges.len() == 2 && judges[0] == asked1 && judges[1] == asked2);
            assert(rises(levels, optimizers, judges, 1));
            assert forall|i: int| 0 < i < levels.len() implies #[trigger] rises(
                levels,
                optimizers,
                judges,
                i,
            ) by {
                assert(i == 1);
            }
            assert(hierarchy(view, levels, optimizers, judges));
            assert forall|i: int|
                0 <= i < judges.len() && (#[trigger] judges[i]).len() > 0 implies *judges[i][0]
                == optimizers[i] && *final(judges[i].last()) == optimizers[i + 1] by {
                if i == 0 {
                    assert(judges[i] == asked1);
                } else {
                    assert(judges[i] == asked2);
                }
            }
            assert forall|i: int, j: int, k: int|
                0 <= i < judges.len() && 0 <= j && k == j + 1 && k < judges[i].len()
                    implies *(#[trigger] judges[i][k]) == *final(#[trigger] judges[i][j]) by {
                if i == 0 {
                    assert(judges[i][k] == asked1[k] && judges[i][j] == asked1[j]);
                } else {
                    assert(judges[i][k] == asked2[k] && judges[i][j] == asked2[j]);
                }
            }
        }
        let mut left: Option<usize> = max_iter;
        let mut limited: bool = false;
        while previous != count && !limited
            invariant
                view == self@,
                view.nodes.len() <= u32::MAX,
                high_level_graph.wf(),
                levels.len() >= 2,
                levels.last() == high_level_graph@,
                optimizers.len() == levels.len() + 1,
                optimizers[0] == first,
                optimizers.last() == *optimizer,
                count == levels.last().nodes.len(),
                previous == levels[levels.len() - 2].nodes.len(),
                count <= previous <= view.nodes.len(),
                self.wf(),
                view.spanned(high_level_graph@),
                max_iter is None ==> left is None && !limited,
                max_iter is Some && !limited ==> left is Some && left->0 + levels.len() == max_iter->0
                    + 2,
                max_iter is Some && limited ==> levels.len() == max_iter->0 + 3,
                exists|judges: Seq<Seq<&mut O>>|
                    {
                        &&& #[trigger] hierarchy(view, levels, optimizers, judges)
                        &&& forall|i: int|
                            0 <= i < judges.len() && (#[trigger] judges[i]).len() > 0
                                ==> *judges[i][0] == optimizers[i] && *final(judges[i].last()) == optimizers[i
                                + 1]
                        &&& forall|i: int, j: int, k: int|
                            0 <= i < judges.len() && 0 <= j && k == j + 1 && k < judges[i].len()
                                ==> *(#[trigger] judges[i][k]) == *final(#[trigger] judges[i][j])
                    },
            decreases count, (previous != count) as int,
        {
            let ghost below = high_level_graph@;
            let ghost before = *optimizer;
            previous = count;
            high_level_graph = leiden_ln(high_level_graph, optimizer);
            count = high_level_graph.count_nodes();
            proof {
                let made = high_level_graph@;
                assert(made.edges.len() == high_level_graph.edges.len());
                let asked = choose|asked: Seq<&mut O>|
                    {
                        &&& #[trigger] below.raised(before, asked, made, *optimizer)
                        &&& asked.len() > 0 ==> *asked[0] == before && *final(asked.last()) == *optimizer
                        &&& forall|j: int, k: int|
                            0 <= j && k == j + 1 && k < asked.len()
                                ==> *(#[trigger] asked[k]) == *final(#[trigger] asked[j])
                    };
                below.law_raised_divides(before, asked, made, *optimizer, view.nodes.len());
                view.law_raised_spans(below, before, asked, made, *optimizer);
                let judges = choose|judges: Seq<Seq<&mut O>>|
                    {
                        &&& #[trigger] hierarchy(view, levels, optimizers, judges)
                        &&& forall|i: int|
                            0 <= i < judges.len() && (#[trigger] judges[i]).len() > 0
                                ==> *judges[i][0] == optimizers[i] && *final(judges[i].last()) == optimizers[i
                                + 1]
                        &&& forall|i: int, j: int, k: int|
                            0 <= i < judges.len() && 0 <= j && k == j + 1 && k < judges[i].len()
                                ==> *(#[trigger] judges[i][k]) == *final(#[trigger] judges[i][j])
                    };
                assert(shrinks(levels, levels.len() - 1));
                lemma_one_more(view, levels, optimizers, judges, made, *optimizer, asked);
                let levels2 = levels.push(made);
                let optimizers2 = optimizers.push(*optimizer);
                let judges2 = judges.push(asked);
                assert forall|i: int| 0 <= i < judges2.len() && (#[trigger] judges2[i]).len()
                    > 0 implies *judges2[i][0] == optimizers2[i] && *final(judges2[i].last()) == optimizers2[i
                    + 1] by {
                    if i < judges.len() {
                        assert(judges2[i] == judges[i]);
                    }
                }
                assert forall|i: int, j: int, k: int|
                    0 <= i < judges2.len() && 0 <= j && k == j + 1 && k < judges2[i].len()
                        implies *(#[trigger] judges2[i][k]) == *final(#[trigger] judges2[i][j]) by {
                    if i < judges.len() {
                        assert(judges2[i][k] == judges[i][k] && judges2[i][j] == judges[i][j]);
                    } else {
                        assert(judges2[i][k] == asked[k] && judges2[i][j] == asked[j]);
                    }
                }
                levels = levels2;
                optimizers = optimizers2;
            }
            match left {
                Some(rounds) => {
                    if rounds == 0 {
                        limited = true;
                    } else {
                        left = Some(rounds - 1);
                    }
                },
                None => {},
            }
        }
        assert(complete(levels, max_iter));
        high_level_graph
    }
}

} // verus!
