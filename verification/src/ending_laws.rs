//! Where optimization starts and where it ends, and where the making of levels ends.

use crate::binary32::Binary32;
use crate::community::Community;
use crate::graph::GraphView;
use crate::modularity::LocalMove;
use crate::moves::Progress;
use crate::optimizer::{ModularityOptimizer, TrivialModularityOptimizer};
use crate::tables::CommunityId;
use vstd::prelude::*;

verus! {

impl<N, E> GraphView<N, E> {
    /// In the initial assignment every node has its own number for its label, so no two
    /// nodes have the same.
    pub proof fn law_initially_alone(self, a: usize, b: usize)
        requires
            self.nodes.len() <= u32::MAX,
            a < self.nodes.len(),
            b < self.nodes.len(),
        ensures
            self.initial().contains_key(a),
            self.initial()[a] as int == a as int,
            a != b ==> self.initial()[a] != self.initial()[b],
    {
    }

    /// A node that chooses no move gains nothing by joining any of its neighbours.
    proof fn lemma_quiet_node(self, degrees: Seq<Binary32>, at: Progress, node: usize)
        requires
            self.wf(),
            self.nodes.len() <= usize::MAX,
            self.chooses(degrees, at, node, None),
        ensures
            forall|neighbor: usize| #[trigger]
                self.adjacent(node, neighbor) && at.labels[neighbor] != at.labels[node]
                    ==> !(Binary32 { bits: 0 }).below(
                    self.gain(degrees, at, node, at.labels[neighbor]),
                ),
    {
        assert forall|neighbor: usize| #[trigger]
            self.adjacent(node, neighbor) && at.labels[neighbor]
                != at.labels[node] implies !(Binary32 { bits: 0 }).below(
            self.gain(degrees, at, node, at.labels[neighbor]),
        ) by {
            self.law_candidates(at, node, at.labels[neighbor]);
            assert(self.candidate(at, node, at.labels[neighbor]));
        }
    }

    /// What a node chooses, in terms of its neighbours: a move to the community of one of
    /// them, which gains something, and no other of their communities would gain it more;
    /// or no move, if and only if none of their communities would gain it anything.
    pub proof fn law_choice_in_terms_of_neighbours(
        self,
        degrees: Seq<Binary32>,
        at: Progress,
        node: usize,
        choice: LocalMove,
    )
        requires
            self.wf(),
            self.nodes.len() <= usize::MAX,
        ensures
            self.chooses(degrees, at, node, None) <==> (forall|neighbor: usize| #[trigger]
                self.adjacent(node, neighbor) && at.labels[neighbor] != at.labels[node] ==> !(
                Binary32 { bits: 0 }).below(
                    self.gain(degrees, at, node, at.labels[neighbor]),
                )),
            self.chooses(degrees, at, node, Some(choice)) <==> (choice.node == node
                && choice.community != at.labels[node] && (exists|neighbor: usize| #[trigger]
                self.adjacent(node, neighbor) && at.labels[neighbor] == choice.community) && (
            Binary32 { bits: 0 }).below(self.gain(degrees, at, node, choice.community)) && (forall|
                neighbor: usize,
            | #[trigger]
                self.adjacent(node, neighbor) && at.labels[neighbor] != at.labels[node]
                    ==> !self.gain(degrees, at, node, choice.community).below(
                    self.gain(degrees, at, node, at.labels[neighbor]),
                ))),
    {
        let community = choice.community;
        self.law_candidates(at, node, community);
        if self.chooses(degrees, at, node, None) {
            self.lemma_quiet_node(degrees, at, node);
        }
        if forall|neighbor: usize| #[trigger]
            self.adjacent(node, neighbor) && at.labels[neighbor] != at.labels[node]
                ==> !(Binary32 { bits: 0 }).below(
                self.gain(degrees, at, node, at.labels[neighbor]),
            ) {
            assert forall|c: CommunityId| #[trigger]
                self.candidate(at, node, c) implies !self.improves(degrees, at, node, c) by {
                self.law_candidates(at, node, c);
                let neighbor = choose|neighbor: usize| #[trigger]
                    self.adjacent(node, neighbor) && at.labels[neighbor] == c;
                assert(self.adjacent(node, neighbor));
            }
        }
        if self.chooses(degrees, at, node, Some(choice)) {
            assert forall|neighbor: usize| #[trigger]
                self.adjacent(node, neighbor) && at.labels[neighbor]
                    != at.labels[node] implies !self.gain(degrees, at, node, community).below(
                self.gain(degrees, at, node, at.labels[neighbor]),
            ) by {
                self.law_candidates(at, node, at.labels[neighbor]);
                assert(self.candidate(at, node, at.labels[neighbor]));
            }
        }
        if choice.node == node && self.candidate(at, node, community) && self.improves(degrees, at, node, community) && (
        forall|neighbor: usize| #[trigger]
            self.adjacent(node, neighbor) && at.labels[neighbor] != at.labels[node]
                ==> !self.gain(degrees, at, node, community).below(
                self.gain(degrees, at, node, at.labels[neighbor]),
            )) {
            assert forall|c: CommunityId| #[trigger]
                self.candidate(at, node, c) implies !self.gain(degrees, at, node, community).below(
                self.gain(degrees, at, node, c),
            ) by {
                self.law_candidates(at, node, c);
                let neighbor = choose|neighbor: usize| #[trigger]
                    self.adjacent(node, neighbor) && at.labels[neighbor] == c;
                assert(self.adjacent(node, neighbor));
            }
        }
    }

    /// An optimization of few enough nodes to go in turn asks nobody, and ends where no
    /// node gains anything by joining a neighbour, unless the count of sweeps has run out.
    pub proof fn law_turns_end<O: ModularityOptimizer>(
        self,
        start: Map<usize, CommunityId>,
        before: O,
        labels: Map<usize, CommunityId>,
        after: O,
        judges: Seq<&mut O>,
    )
        requires
            self.wf(),
            self.nodes.len() <= usize::MAX,
            self.optimized(start, before, labels, after, judges),
            forall|threshold: usize| #[trigger]
                call_ensures(O::get_parallel_threshold, (&before,), threshold)
                    ==> self.nodes.len() <= threshold,
        ensures
            judges.len() == 0,
            after == before,
            exists|states: Seq<Progress>|
                {
                    &&& #[trigger] self.sweeps(self.degrees(), states)
                    &&& states.len() > 0
                    &&& states[0].labels == start
                    &&& states[0].starts(self.degrees())
                    &&& states.last().labels == labels
                    &&& states.len() <= u64::MAX ==> forall|node: usize, neighbor: usize|
                        node < self.nodes.len() && #[trigger] self.adjacent(node, neighbor)
                            && labels[neighbor] != labels[node] ==> !(Binary32 { bits: 0 }).below(
                            self.gain(self.degrees(), states.last(), node, labels[neighbor]),
                        )
                },
    {
        let (from, to, threshold) = choose|from: Progress, to: Progress, threshold: usize| #[trigger]
            self.optimized_within(from, to, threshold, judges) && from.labels == start && to.labels
                == labels && #[trigger] call_ensures(
                O::get_parallel_threshold,
                (&before,),
                threshold,
            ) && (judges.len() == 0 ==> after == before);
        let degrees = self.degrees();
        let states = choose|states: Seq<Progress>|
            {
                &&& #[trigger] self.sweeps(degrees, states)
                &&& states.len() > 0
                &&& states[0] == from
                &&& states.last() == to
                &&& self.settled(degrees, to) || states.len() > u64::MAX
            };
        if states.len() <= u64::MAX {
            assert forall|node: usize, neighbor: usize|
                node < self.nodes.len() && #[trigger] self.adjacent(node, neighbor)
                    && labels[neighbor] != labels[node] implies !(Binary32 { bits: 0 }).below(
                self.gain(degrees, states.last(), node, labels[neighbor]),
            ) by {
                assert(self.chooses(degrees, to, node, None));
                self.lemma_quiet_node(degrees, to, node);
            }
        }
    }

    /// An optimization of too many nodes to go in turn goes in rounds, and the optimizer is
    /// asked about each of them, with the modularity before and after it. Each round but the
    /// last was judged not to be converged. The last one was judged to be, or it was not and
    /// no node gains anything any more by joining a neighbour, unless the count of rounds
    /// has run out.
    pub proof fn law_rounds_end<O: ModularityOptimizer>(
        self,
        start: Map<usize, CommunityId>,
        before: O,
        labels: Map<usize, CommunityId>,
        after: O,
        judges: Seq<&mut O>,
    )
        requires
            self.wf(),
            self.nodes.len() <= usize::MAX,
            self.optimized(start, before, labels, after, judges),
            forall|threshold: usize| #[trigger]
                call_ensures(O::get_parallel_threshold, (&before,), threshold)
                    ==> self.nodes.len() > threshold,
        ensures
            exists|states: Seq<Progress>, converged: bool|
                {
                    &&& #[trigger] self.verdicts(states, judges, converged)
                    &&& self.rounds(self.degrees(), states)
                    &&& states.len() == judges.len() + 1
                    &&& states[0].labels == start
                    &&& states[0].starts(self.degrees())
                    &&& states.last().labels == labels
                    &&& converged ==> judges.len() > 0
                    &&& !converged && judges.len() < u64::MAX ==> forall|
                        node: usize,
                        neighbor: usize,
                    |
                        node < self.nodes.len() && #[trigger] self.adjacent(node, neighbor)
                            && labels[neighbor] != labels[node] ==> !(Binary32 { bits: 0 }).below(
                            self.gain(self.degrees(), states.last(), node, labels[neighbor]),
                        )
                },
    {
        let (from, to, threshold) = choose|from: Progress, to: Progress, threshold: usize| #[trigger]
            self.optimized_within(from, to, threshold, judges) && from.labels == start && to.labels
                == labels && #[trigger] call_ensures(
                O::get_parallel_threshold,
                (&before,),
                threshold,
            ) && (judges.len() == 0 ==> after == before);
        let degrees = self.degrees();
        let (states, stopped) = choose|states: Seq<Progress>, stopped: bool|
            {
                &&& #[trigger] crate::optimize::judged(self, states, judges, stopped)
                &&& self.rounds(degrees, states)
                &&& states[0] == from
                &&& states.last() == to
                &&& stopped || self.settled(degrees, to) || states.len() > u64::MAX
            };
        assert(self.verdicts(states, judges, stopped));
        if !stopped && judges.len() < u64::MAX {
            assert forall|node: usize, neighbor: usize|
                node < self.nodes.len() && #[trigger] self.adjacent(node, neighbor)
                    && labels[neighbor] != labels[node] implies !(Binary32 { bits: 0 }).below(
                self.gain(degrees, states.last(), node, labels[neighbor]),
            ) by {
                assert(self.chooses(degrees, to, node, None));
                self.lemma_quiet_node(degrees, to, node);
            }
        }
    }

    /// What `judges[k]` answers when asked about round `k` of `states`: that it is converged
    /// only of the last one, and of that one if `converged`.
    pub open spec fn verdicts<O: ModularityOptimizer>(
        self,
        states: Seq<Progress>,
        judges: Seq<&mut O>,
        converged: bool,
    ) -> bool {
        forall|k: int|
            0 <= k < judges.len() ==> call_ensures(
                O::is_converged,
                (
                    #[trigger] judges[k],
                    self.modularity(states[k].labels),
                    self.modularity(states[k + 1].labels),
                ),
                converged && k == judges.len() - 1,
            )
    }

    /// With the trivial optimizer, an optimization in rounds ends where no node gains
    /// anything any more by joining a neighbour, or after a round that has changed
    /// modularity by less than the tolerance, and no earlier round has; unless the count of
    /// rounds has run out.
    pub proof fn law_tolerance_decides(
        self,
        start: Map<usize, CommunityId>,
        before: TrivialModularityOptimizer,
        labels: Map<usize, CommunityId>,
        after: TrivialModularityOptimizer,
        judges: Seq<&mut TrivialModularityOptimizer>,
    )
        requires
            self.wf(),
            self.nodes.len() <= usize::MAX,
            self.optimized(start, before, labels, after, judges),
            self.nodes.len() > before.parallel_scale,
            judges.len() > 0 ==> *judges[0] == before,
            forall|j: int, k: int|
                0 <= j && k == j + 1 && k < judges.len()
                    ==> *(#[trigger] judges[k]) == *final(#[trigger] judges[j]),
        ensures
            exists|states: Seq<Progress>|
                {
                    &&& #[trigger] self.rounds(self.degrees(), states)
                    &&& states.len() == judges.len() + 1
                    &&& states[0].labels == start
                    &&& states[0].starts(self.degrees())
                    &&& states.last().labels == labels
                    &&& forall|k: int|
                        0 <= k < states.len() - 2 ==> !self.modularity(
                            states[k + 1].labels,
                        ).subtracted(self.modularity((#[trigger] states[k]).labels)).below(
                            before.tol,
                        )
                    &&& {
                        ||| judges.len() >= u64::MAX
                        ||| states.len() > 1 && self.modularity(labels).subtracted(
                            self.modularity(states[states.len() - 2].labels),
                        ).below(before.tol)
                        ||| forall|node: usize, neighbor: usize|
                            node < self.nodes.len() && #[trigger] self.adjacent(node, neighbor)
                                && labels[neighbor] != labels[node] ==> !(Binary32 { bits: 0 }).below(
                                self.gain(self.degrees(), states.last(), node, labels[neighbor]),
                            )
                    }
                },
    {
        self.law_rounds_end(start, before, labels, after, judges);
        let (states, converged) = choose|states: Seq<Progress>, converged: bool|
            {
                &&& #[trigger] self.verdicts(states, judges, converged)
                &&& self.rounds(self.degrees(), states)
                &&& states.len() == judges.len() + 1
                &&& states[0].labels == start
                &&& states[0].starts(self.degrees())
                &&& states.last().labels == labels
                &&& converged ==> judges.len() > 0
                &&& !converged && judges.len() < u64::MAX ==> forall|
                    node: usize,
                    neighbor: usize,
                |
                    node < self.nodes.len() && #[trigger] self.adjacent(node, neighbor)
                        && labels[neighbor] != labels[node] ==> !(Binary32 { bits: 0 }).below(
                        self.gain(self.degrees(), states.last(), node, labels[neighbor]),
                    )
            };
        assert forall|k: int| 0 <= k < states.len() - 2 implies !self.modularity(
            states[k + 1].labels,
        ).subtracted(self.modularity((#[trigger] states[k]).labels)).below(before.tol) by {
            lemma_same_judge(self, before, states, judges, converged, k);
            let _ = judges[k];
        }
        if converged {
            let last = judges.len() - 1;
            lemma_same_judge(self, before, states, judges, converged, last);
            let _ = judges[last];
            assert(states[last + 1] == states.last());
        }
    }
}

/// The trivial optimizer does not change by being asked.
proof fn lemma_same_judge<N, E>(
    view: GraphView<N, E>,
    before: TrivialModularityOptimizer,
    states: Seq<Progress>,
    judges: Seq<&mut TrivialModularityOptimizer>,
    converged: bool,
    k: int,
)
    requires
        view.verdicts(states, judges, converged),
        0 <= k < judges.len(),
        *judges[0] == before,
        forall|j: int, k: int|
            0 <= j && k == j + 1 && k < judges.len()
                ==> *(#[trigger] judges[k]) == *final(#[trigger] judges[j]),
    ensures
        *judges[k] == before,
    decreases k,
{
    if 0 < k {
        lemma_same_judge(view, before, states, judges, converged, k - 1);
        let _ = judges[k - 1];
        assert(*judges[k] == *final(judges[k - 1]));
    }
}

/// Where there are as many sets as nodes in a partition, each set is one node.
proof fn lemma_each_alone(parts: Seq<Set<usize>>, all: Set<usize>, x: int, a: usize, b: usize)
    requires
        crate::refine::partitions(parts, all),
        all.finite(),
        parts.len() == all.len(),
        0 <= x < parts.len(),
        parts[x].contains(a),
        parts[x].contains(b),
    ensures
        a == b,
{
    if a != b {
        let fewer = all.remove(b);
        let smaller = parts.update(x, parts[x].remove(b));
        assert(all.contains(b)) by {
            assert(parts[x].subset_of(all));
        }
        assert forall|i: int| 0 <= i < smaller.len() implies #[trigger] smaller[i] != Set::<
            usize,
        >::empty() by {
            if i == x {
                assert(smaller[i].contains(a));
            } else {
                assert(parts[i] != Set::<usize>::empty());
            }
        }
        assert forall|i: int, j: int|
            0 <= i < smaller.len() && 0 <= j < smaller.len() && i != j implies (
        #[trigger] smaller[i]).disjoint(#[trigger] smaller[j]) by {
            assert(parts[i].disjoint(parts[j]));
        }
        assert forall|i: int| 0 <= i < smaller.len() implies (#[trigger] smaller[i]).subset_of(
            fewer,
        ) by {
            assert(parts[i].subset_of(all));
            if i != x {
                assert(parts[i].disjoint(parts[x]));
            }
        }
        assert forall|node: usize| #[trigger] fewer.contains(node) implies exists|i: int|
            0 <= i < smaller.len() && (#[trigger] smaller[i]).contains(node) by {
            assert(all.contains(node));
            let i = choose|i: int| 0 <= i < parts.len() && (#[trigger] parts[i]).contains(node);
            assert(smaller[i].contains(node));
        }
        crate::refine::lemma_partition_size(smaller, fewer);
    }
}

/// Where the number of levels is not limited, levels are made until one more level joins
/// nothing: the last level is the one below it, and each of the sets that its communities
/// were put into holds one of them.
pub proof fn law_unlimited_levels_end<N, E, O: ModularityOptimizer>(
    graph: GraphView<N, E>,
    levels: Seq<GraphView<Community, ()>>,
    optimizers: Seq<O>,
    judges: Seq<Seq<&mut O>>,
)
    requires
        graph.wf(),
        graph.nodes.len() <= u32::MAX,
        crate::leiden::hierarchy(graph, levels, optimizers, judges),
        crate::leiden::complete(levels, None),
    ensures
        levels.len() >= 2,
        levels.last().nodes.len() == levels[levels.len() - 2].nodes.len(),
        levels.last() == levels[levels.len() - 2],
        exists|parts: Seq<Set<usize>>|
            {
                &&& #[trigger] levels.last().parted(
                    optimizers[levels.len() - 1],
                    judges.last(),
                    parts,
                    optimizers.last(),
                )
                &&& parts.len() == levels.last().nodes.len()
                &&& forall|x: int, a: usize, b: usize|
                    0 <= x < parts.len() && #[trigger] parts[x].contains(a)
                        && #[trigger] parts[x].contains(b) ==> a == b
            },
{
    lemma_joins_nothing(graph, levels, optimizers, judges);
}

proof fn lemma_joins_nothing<N, E, O: ModularityOptimizer>(
    graph: GraphView<N, E>,
    levels: Seq<GraphView<Community, ()>>,
    optimizers: Seq<O>,
    judges: Seq<Seq<&mut O>>,
)
    requires
        graph.wf(),
        graph.nodes.len() <= u32::MAX,
        crate::leiden::hierarchy(graph, levels, optimizers, judges),
        levels.last().nodes.len() >= levels[levels.len() - 2].nodes.len(),
    ensures
        levels.last().nodes.len() == levels[levels.len() - 2].nodes.len(),
        levels.last() == levels[levels.len() - 2],
        exists|parts: Seq<Set<usize>>|
            {
                &&& #[trigger] levels.last().parted(
                    optimizers[levels.len() - 1],
                    judges.last(),
                    parts,
                    optimizers.last(),
                )
                &&& parts.len() == levels.last().nodes.len()
                &&& forall|x: int, a: usize, b: usize|
                    0 <= x < parts.len() && #[trigger] parts[x].contains(a)
                        && #[trigger] parts[x].contains(b) ==> a == b
            },
{
    let i = levels.len() - 1;
    let below = levels[i - 1];
    let top = levels[i];
    assert(levels.last() == top);
    crate::leiden_laws::law_levels_span(graph, levels, optimizers, judges, i - 1);
    assert(crate::leiden::rises(levels, optimizers, judges, i));
    let parts = choose|parts: Seq<Set<usize>>|
        {
            &&& #[trigger] below.parted(optimizers[i], judges[i], parts, optimizers[i + 1])
            &&& if parts.len() == below.nodes.len() {
                top == below
            } else {
                &&& crate::compress::next_level(below.nodes, parts, top.nodes)
                &&& top == below.bridged(parts, top.nodes)
            }
        };
    below.law_parted_partitions(optimizers[i], judges[i], parts, optimizers[i + 1]);
    assert(parts.len() == below.nodes.len());
    assert(judges.last() == judges[i] && optimizers.last() == optimizers[i + 1]);
    crate::refine::lemma_numbers(below.nodes.len());
    assert forall|x: int, a: usize, b: usize|
        0 <= x < parts.len() && #[trigger] parts[x].contains(a) && #[trigger] parts[x].contains(
            b,
        ) implies a == b by {
        lemma_each_alone(parts, crate::refine::numbers(below.nodes.len()), x, a, b);
    }
    assert(top.parted(optimizers[levels.len() - 1], judges.last(), parts, optimizers.last()));
}

/// Where at most `rounds` levels are made beyond the third, there are no more than that;
/// and where there are fewer, the last level is the one below it.
pub proof fn law_limited_levels_end<N, E, O: ModularityOptimizer>(
    graph: GraphView<N, E>,
    levels: Seq<GraphView<Community, ()>>,
    optimizers: Seq<O>,
    judges: Seq<Seq<&mut O>>,
    rounds: usize,
)
    requires
        graph.wf(),
        graph.nodes.len() <= u32::MAX,
        crate::leiden::hierarchy(graph, levels, optimizers, judges),
        crate::leiden::complete(levels, Some(rounds)),
    ensures
        2 <= levels.len() <= rounds + 3,
        levels.len() < rounds + 3 ==> levels.last() == levels[levels.len() - 2],
{
    if levels.len() < rounds + 3 {
        lemma_joins_nothing(graph, levels, optimizers, judges);
    }
}

/// No level is made once one has as many communities as the one below it.
pub proof fn law_levels_shrink<N, E, O: ModularityOptimizer>(
    graph: GraphView<N, E>,
    levels: Seq<GraphView<Community, ()>>,
    optimizers: Seq<O>,
    judges: Seq<Seq<&mut O>>,
    i: int,
)
    requires
        crate::leiden::hierarchy(graph, levels, optimizers, judges),
        0 < i < levels.len() - 1,
    ensures
        levels[i].nodes.len() < levels[i - 1].nodes.len(),
{
    assert(crate::leiden::shrinks(levels, i));
}

} // verus!
