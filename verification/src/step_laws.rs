//! What each step does: a turn, a sweep, a round, the making of a level.

use crate::binary32::Binary32;
use crate::community::Community;
use crate::graph::GraphView;
use crate::modularity::LocalMove;
use crate::moves::Progress;
use crate::optimizer::ModularityOptimizer;
use crate::tables::{CommunityId, NodeSet};
use vstd::prelude::*;

verus! {

impl<N, E> GraphView<N, E> {
    /// `node` has had its turn: it has made the move that it chose, or none.
    pub open spec fn turn(
        self,
        degrees: Seq<Binary32>,
        at: Progress,
        node: usize,
        next: Progress,
    ) -> bool {
        ||| self.chooses(degrees, at, node, None) && next == at
        ||| exists|local_move: LocalMove| #[trigger]
            self.chooses(degrees, at, node, Some(local_move)) && next == at.after(
                degrees,
                local_move,
            )
    }

    /// In a sweep every node has its turn, one after the other, each in the state that the
    /// one before has left. If any has moved in it, then some node chose a move at its turn.
    pub proof fn law_sweep_gives_turns(
        self,
        degrees: Seq<Binary32>,
        from: Progress,
        moved: bool,
        to: Progress,
    )
        requires
            self.nodes.len() <= usize::MAX,
            self.swept(degrees, from, moved, to),
        ensures
            exists|states: Seq<Progress>|
                {
                    &&& states.len() == self.nodes.len() + 1
                    &&& #[trigger] states[0] == from
                    &&& states.last() == to
                    &&& forall|i: int|
                        0 <= i < self.nodes.len() ==> self.turn(
                            degrees,
                            #[trigger] states[i],
                            i as usize,
                            states[i + 1],
                        )
                    &&& moved <==> exists|i: int|
                        0 <= i < self.nodes.len() && !self.chooses(
                            degrees,
                            #[trigger] states[i],
                            i as usize,
                            None,
                        )
                },
    {
        let choices = choose|choices: Seq<Option<LocalMove>>|
            {
                &&& #[trigger] self.in_turn(degrees, from, choices)
                &&& choices.len() == self.nodes.len()
                &&& to == from.after_choices(degrees, choices)
                &&& moved == exists|i: int| 0 <= i < choices.len() && (#[trigger] choices[i]) is Some
            };
        let n = self.nodes.len() as int;
        let states = Seq::new(
            (n + 1) as nat,
            |i: int| from.after_choices(degrees, choices.take(i)),
        );
        assert(choices.take(0) =~= Seq::<Option<LocalMove>>::empty());
        assert(choices.take(n) =~= choices);
        assert(states[0] == from);
        assert(states.last() == to);
        assert forall|i: int| 0 <= i < n implies self.turn(
            degrees,
            #[trigger] states[i],
            i as usize,
            states[i + 1],
        ) && (choices[i] is Some <==> !self.chooses(degrees, states[i], i as usize, None)) by {
            assert(choices.take(i + 1).drop_last() =~= choices.take(i));
            assert(choices.take(i + 1).last() == choices[i]);
            let _ = from.after_choices(degrees, choices.take(i));
            assert(self.chooses(degrees, states[i], i as usize, choices[i]));
            if choices[i] is Some {
                if self.chooses(degrees, states[i], i as usize, None) {
                    self.law_choices_are_equally_good(
                        degrees,
                        states[i],
                        i as usize,
                        choices[i],
                        None,
                    );
                }
            }
        }
        if moved {
            let i = choose|i: int| 0 <= i < choices.len() && (#[trigger] choices[i]) is Some;
            assert(!self.chooses(degrees, states[i], i as usize, None));
        }
        if exists|i: int|
            0 <= i < n && !self.chooses(degrees, #[trigger] states[i], i as usize, None) {
            let i = choose|i: int|
                0 <= i < n && !self.chooses(degrees, #[trigger] states[i], i as usize, None);
            assert(choices[i] is Some);
        }
    }

    /// Between two states of an optimization in turn there is one sweep, and it has moved
    /// something.
    pub proof fn law_sweeps_follow(self, degrees: Seq<Binary32>, states: Seq<Progress>, k: int)
        requires
            self.sweeps(degrees, states),
            0 <= k < states.len() - 1,
        ensures
            self.swept(degrees, states[k], true, states[k + 1]),
    {
        let j = k + 1;
        assert(self.swept(degrees, states[k], true, states[j]));
    }

    proof fn lemma_batch_labels(
        self,
        degrees: Seq<Binary32>,
        from: Progress,
        batch: Seq<LocalMove>,
        node: usize,
    )
        requires
            forall|i: int, j: int|
                0 <= i < j < batch.len() ==> (#[trigger] batch[i]).node != (
                #[trigger] batch[j]).node,
        ensures
            forall|i: int|
                0 <= i < batch.len() && (#[trigger] batch[i]).node == node ==> from.after_all(
                    degrees,
                    batch,
                ).labels[node] == batch[i].community,
            (forall|i: int| 0 <= i < batch.len() ==> (#[trigger] batch[i]).node != node)
                ==> from.after_all(degrees, batch).labels[node] == from.labels[node],
        decreases batch.len(),
    {
        if batch.len() > 0 {
            let fewer = batch.drop_last();
            let last = batch.len() - 1;
            assert forall|i: int, j: int| 0 <= i < j < fewer.len() implies (
            #[trigger] fewer[i]).node != (#[trigger] fewer[j]).node by {
                assert(batch[i].node != batch[j].node);
            }
            self.lemma_batch_labels(degrees, from, fewer, node);
            let before = from.after_all(degrees, fewer);
            assert(from.after_all(degrees, batch) == before.after(degrees, batch[last]));
            assert forall|i: int| 0 <= i < batch.len() && (
            #[trigger] batch[i]).node == node implies from.after_all(degrees, batch).labels[node]
                == batch[i].community by {
                if i < last {
                    assert(fewer[i] == batch[i]);
                    assert(batch[i].node != batch[last].node);
                }
            }
            if forall|i: int| 0 <= i < batch.len() ==> (#[trigger] batch[i]).node != node {
                assert forall|i: int| 0 <= i < fewer.len() implies (
                #[trigger] fewer[i]).node != node by {
                    assert(fewer[i] == batch[i]);
                }
                assert(batch[last].node != node);
            }
        }
    }

    /// In a round every node has chosen from the state before it: it has the label of the
    /// move that it chose, or it chose none and has kept its label. Some node has moved.
    pub proof fn law_round_moves_everyone(
        self,
        degrees: Seq<Binary32>,
        from: Progress,
        to: Progress,
        node: usize,
    )
        requires
            self.nodes.len() <= usize::MAX,
            node < self.nodes.len(),
            self.moved_at_once(degrees, from, to),
        ensures
            (self.chooses(degrees, from, node, None) && to.labels[node] == from.labels[node]) || (
            exists|local_move: LocalMove| #[trigger]
                self.chooses(degrees, from, node, Some(local_move)) && to.labels[node]
                    == local_move.community),
            exists|other: usize|
                other < self.nodes.len() && !#[trigger] self.chooses(degrees, from, other, None),
    {
        let batch = choose|batch: Seq<LocalMove>| #[trigger]
            self.gathered(degrees, from, batch) && batch.len() > 0 && to == from.after_all(
                degrees,
                batch,
            );
        self.lemma_batch_labels(degrees, from, batch, node);
        if exists|i: int| 0 <= i < batch.len() && (#[trigger] batch[i]).node == node {
            let i = choose|i: int| 0 <= i < batch.len() && (#[trigger] batch[i]).node == node;
            assert(self.chooses(degrees, from, node, Some(batch[i])));
        } else {
            assert(self.chooses(degrees, from, node, None));
        }
        let first = batch[0];
        assert(self.chooses(degrees, from, first.node, Some(first)));
        if self.chooses(degrees, from, first.node, None) {
            self.law_choices_are_equally_good(degrees, from, first.node, Some(first), None);
        }
        assert(!self.chooses(degrees, from, first.node, None));
    }

    /// Between two states of an optimization in rounds there is one round.
    pub proof fn law_rounds_follow(self, degrees: Seq<Binary32>, states: Seq<Progress>, k: int)
        requires
            self.rounds(degrees, states),
            0 <= k < states.len() - 1,
        ensures
            self.moved_at_once(degrees, states[k], states[k + 1]),
    {
        let j = k + 1;
        assert(self.moved_at_once(degrees, states[k], states[j]));
    }

    /// There is one weighted degree for each node.
    pub proof fn law_degrees_of_nodes(self, a: usize)
        requires
            a < self.nodes.len(),
        ensures
            self.degrees().len() == self.nodes.len(),
            self.degrees()[a as int] == self.weighted_degree(a),
    {
    }

    /// The sets that a graph is parted into come from an optimization that starts with each
    /// node alone: nodes are in one set if and only if edges between nodes of one label lead
    /// from one to the other.
    pub proof fn law_parts_come_from_optimization<O: ModularityOptimizer>(
        self,
        before: O,
        judges: Seq<&mut O>,
        parts: Seq<Set<usize>>,
        after: O,
    )
        requires
            self.parted(before, judges, parts, after),
            self.nodes.len() <= u32::MAX,
        ensures
            exists|start: Map<usize, CommunityId>, labels: Map<usize, CommunityId>|
                {
                    &&& #[trigger] self.optimized(start, before, labels, after, judges)
                    &&& forall|node: usize| #[trigger]
                        start.contains_key(node) <==> node < self.nodes.len()
                    &&& forall|node: usize|
                        node < self.nodes.len() ==> (#[trigger] start[node]) as int == node as int
                    &&& forall|x: int, a: usize, b: usize|
                        0 <= x < parts.len() && #[trigger] parts[x].contains(a)
                            && #[trigger] parts[x].contains(b) ==> labels[a] == labels[b]
                            && self.reaches(parts[x], a, b)
                    &&& forall|x: int, a: usize, b: usize|
                        0 <= x < parts.len() && #[trigger] parts[x].contains(a) && b
                            < self.nodes.len() && labels[a] == labels[b] && #[trigger] self.adjacent(
                            a,
                            b,
                        ) ==> parts[x].contains(b)
                },
            crate::refine::partitions(parts, crate::refine::numbers(self.nodes.len())),
    {
        self.law_parted_partitions(before, judges, parts, after);
        reveal(GraphView::parted);
        let labels = choose|labels: Map<usize, CommunityId>|
            {
                &&& #[trigger] self.assigns(labels)
                &&& self.optimized(self.initial(), before, labels, after, judges)
                &&& self.refined(labels, parts)
            };
        let start = self.initial();
        assert(self.optimized(start, before, labels, after, judges));
        assert forall|x: int, a: usize, b: usize|
            0 <= x < parts.len() && #[trigger] parts[x].contains(a) && #[trigger] parts[x].contains(
                b,
            ) implies labels[a] == labels[b] && self.reaches(parts[x], a, b) by {
            assert(self.connected(parts[x]));
            assert(self.self_contained(labels, parts[x]));
        }
        assert forall|x: int, a: usize, b: usize|
            0 <= x < parts.len() && #[trigger] parts[x].contains(a) && b < self.nodes.len()
                && labels[a] == labels[b] && #[trigger] self.adjacent(
                a,
                b,
            ) implies parts[x].contains(b) by {
            assert(self.self_contained(labels, parts[x]));
            assert(labels.contains_key(b));
        }
    }

    /// The first level has one community for each set of nodes that the graph is parted
    /// into, with these nodes, and the weights between and inside these sets.
    pub proof fn law_first_level<O: ModularityOptimizer>(
        self,
        before: O,
        judges: Seq<&mut O>,
        made: GraphView<Community, ()>,
        after: O,
    )
        requires
            self.founded(before, judges, made, after),
            self.nodes.len() <= usize::MAX,
        ensures
            exists|parts: Seq<Set<usize>>|
                {
                    &&& #[trigger] self.parted(before, judges, parts, after)
                    &&& made.nodes.len() == parts.len()
                    &&& made == self.bridged(parts, made.nodes)
                    &&& forall|x: int|
                        0 <= x < parts.len() ==> (#[trigger] made.nodes[x]).nodes() == parts[x]
                            && made.nodes[x] is L1Community
                },
    {
        let sets = choose|sets: Seq<NodeSet>|
            {
                &&& #[trigger] self.parted(before, judges, crate::refine::views(sets), after)
                &&& made == self.bridged(
                    crate::refine::views(sets),
                    crate::compress::first_level(sets),
                )
            };
        let parts = crate::refine::views(sets);
        let nodes = crate::compress::first_level(sets);
        self.lemma_bridged_below_nodes(
            parts,
            crate::compress::nodes_alone(nodes),
            self.nodes.len() as int,
        );
        assert(made.nodes == nodes);
        assert(self.parted(before, judges, parts, after));
        assert forall|x: int| 0 <= x < parts.len() implies (#[trigger] made.nodes[x]).nodes()
            == parts[x] && made.nodes[x] is L1Community by {}
    }
}

impl GraphView<Community, ()> {
    /// The next level has one community for each set of communities that the graph is parted
    /// into, with the nodes of these communities, and the weights between and inside these
    /// sets; where each set is one community, it is the level itself.
    pub proof fn law_next_level<O: ModularityOptimizer>(
        self,
        before: O,
        judges: Seq<&mut O>,
        made: GraphView<Community, ()>,
        after: O,
        n: nat,
    )
        requires
            self.raised(before, judges, made, after),
            self.nodes.len() <= usize::MAX,
            crate::leiden::divides(self.nodes, n),
        ensures
            exists|parts: Seq<Set<usize>>|
                {
                    &&& #[trigger] self.parted(before, judges, parts, after)
                    &&& made.nodes.len() == parts.len() <= self.nodes.len()
                    &&& parts.len() == self.nodes.len() ==> made == self
                    &&& parts.len() < self.nodes.len() ==> made == self.bridged(parts, made.nodes)
                        && forall|x: int, node: usize|
                        0 <= x < parts.len() ==> (#[trigger] made.nodes[x].nodes().contains(node)
                            <==> exists|c: usize|
                            parts[x].contains(c) && #[trigger] self.nodes[c as int].nodes().contains(
                                node,
                            ))
                },
    {
        let parts = choose|parts: Seq<Set<usize>>|
            {
                &&& #[trigger] self.parted(before, judges, parts, after)
                &&& if parts.len() == self.nodes.len() {
                    made == self
                } else {
                    &&& crate::compress::next_level(self.nodes, parts, made.nodes)
                    &&& made == self.bridged(parts, made.nodes)
                }
            };
        self.law_parted_partitions(before, judges, parts, after);
        if parts.len() != self.nodes.len() {
            let low = crate::leiden::members(self.nodes);
            let indices = crate::refine::numbers(self.nodes.len());
            assert forall|i: int, j: int| 0 <= i < j < self.nodes.len() implies (
            #[trigger] self.nodes[i]).nodes().disjoint((#[trigger] self.nodes[j]).nodes()) by {
                assert(low[i].disjoint(low[j]));
            }
            assert forall|x: int, node: usize| 0 <= x < parts.len() implies (
            #[trigger] made.nodes[x].nodes().contains(node) <==> exists|c: usize|
                parts[x].contains(c) && #[trigger] self.nodes[c as int].nodes().contains(node)) by {
                assert(crate::compress::merges(self.nodes, parts[x], made.nodes[x]));
                assert forall|c: usize| parts[x].contains(c) implies c < self.nodes.len() by {
                    assert(indices.contains(c));
                }
                crate::leiden_laws::lemma_merges(self.nodes, parts[x], made.nodes[x]);
            }
        }
    }
}

impl<N, E> GraphView<N, E> {
    proof fn lemma_path_leaves(
        self,
        set: Set<usize>,
        part: Set<usize>,
        path: Seq<usize>,
        k: int,
    )
        requires
            self.is_path(set, path),
            0 <= k < path.len(),
            part.contains(path[0]),
            !part.contains(path[k]),
        ensures
            exists|u: usize, v: usize| #[trigger]
                self.adjacent(u, v) && set.contains(u) && set.contains(v) && part.contains(u)
                    && !part.contains(v),
        decreases k,
    {
        let u = path[k - 1];
        let v = path[k];
        if part.contains(u) {
            assert(set.contains(path[k]));
            assert(set.contains(path[k - 1]));
            assert(self.adjacent(u, v));
        } else {
            self.lemma_path_leaves(set, part, path, k - 1);
        }
    }

    /// A connected set cannot be cut in two without cutting an edge.
    pub proof fn law_connected_has_no_gap(
        self,
        set: Set<usize>,
        part: Set<usize>,
        a: usize,
        b: usize,
    )
        requires
            self.connected(set),
            set.contains(a),
            set.contains(b),
            part.contains(a),
            !part.contains(b),
        ensures
            exists|u: usize, v: usize| #[trigger]
                self.adjacent(u, v) && set.contains(u) && set.contains(v) && part.contains(u)
                    && !part.contains(v),
    {
        assert(self.reaches(set, a, b));
        let path = choose|path: Seq<usize>| #[trigger]
            self.is_path(set, path) && path[0] == a && path.last() == b;
        self.lemma_path_leaves(set, part, path, path.len() - 1);
    }

    /// The weight between two nodes is that of the edge between them, if there is one, from
    /// whichever side.
    pub proof fn law_weight_of_edge(self, a: usize, b: usize)
        requires
            self.wf(),
        ensures
            self.edge_between(a, b) is Some <==> self.adjacent(a, b),
            self.edge_between(a, b) is Some ==> self.exact_weight(a, b) == self.edge_between(
                a,
                b,
            )->0.weight.amount() && self.weight(a, b) == self.edge_between(a, b)->0.weight,
            self.edge_between(a, b) is None ==> self.exact_weight(a, b) == 0,
            self.exact_weight(a, b) == self.exact_weight(b, a),
            self.exact_weight(a, a) == 0,
    {
        self.lemma_term_symmetric(a, b);
        if self.adjacent(a, a) {
            assert(self.ids.contains_key((a, a)));
        }
    }
}

/// Of communities that divide the nodes, exactly one holds each node, and none holds anything
/// else or nothing.
pub proof fn law_one_community_each(communities: Seq<Community>, n: nat, node: usize)
    requires
        crate::leiden::divides(communities, n),
    ensures
        node < n <==> exists|i: int|
            0 <= i < communities.len() && (#[trigger] communities[i]).nodes().contains(node),
        forall|i: int, j: int|
            0 <= i < communities.len() && 0 <= j < communities.len() && (
            #[trigger] communities[i]).nodes().contains(node) && (
            #[trigger] communities[j]).nodes().contains(node) ==> i == j,
        forall|i: int|
            0 <= i < communities.len() ==> (#[trigger] communities[i]).nodes() != Set::<
                usize,
            >::empty(),
{
    let sets = crate::leiden::members(communities);
    let all = crate::refine::numbers(n);
    assert(all.contains(node) <==> node < n);
    if node < n {
        let i = choose|i: int| 0 <= i < sets.len() && (#[trigger] sets[i]).contains(node);
        assert(communities[i].nodes().contains(node));
    }
    if exists|i: int|
        0 <= i < communities.len() && (#[trigger] communities[i]).nodes().contains(node) {
        let i = choose|i: int|
            0 <= i < communities.len() && (#[trigger] communities[i]).nodes().contains(node);
        assert(sets[i].subset_of(all));
        assert(sets[i].contains(node));
    }
    assert forall|i: int, j: int|
        0 <= i < communities.len() && 0 <= j < communities.len() && (
        #[trigger] communities[i]).nodes().contains(node) && (
        #[trigger] communities[j]).nodes().contains(node) implies i == j by {
        if i != j {
            assert(sets[i].disjoint(sets[j]));
            assert(sets[i].contains(node) && sets[j].contains(node));
        }
    }
    assert forall|i: int| 0 <= i < communities.len() implies (#[trigger] communities[i]).nodes()
        != Set::<usize>::empty() by {
        assert(sets[i] != Set::<usize>::empty());
    }
}

/// A community made of one is that one.
pub proof fn law_made_of_one(nodes: Seq<Community>, c: usize, community: Community)
    requires
        crate::compress::merges(nodes, Set::<usize>::empty().insert(c), community),
    ensures
        community == nodes[c as int],
{
    let part = Set::<usize>::empty().insert(c);
    let order = choose|order: Seq<usize>| #[trigger]
        crate::tables::enumerates(order, part) && crate::compress::combines(
            nodes,
            order,
            community,
        );
    order.unique_seq_to_set();
    assert(order.len() == 1);
    assert(order.to_set().contains(order[0]));
}

/// A community made of several others holds each of them once, and nothing else.
pub proof fn law_made_of_several(
    nodes: Seq<Community>,
    part: Set<usize>,
    community: Community,
    a: usize,
    b: usize,
)
    requires
        crate::compress::merges(nodes, part, community),
        part.contains(a),
        part.contains(b),
        a != b,
    ensures
        community is LNCommunity,
        exists|order: Seq<usize>|
            {
                &&& #[trigger] order.no_duplicates()
                &&& order.to_set() == part
                &&& community->LNCommunity_0@.len() == order.len()
                &&& forall|k: int|
                    0 <= k < order.len() ==> #[trigger] community->LNCommunity_0@[k]
                        == nodes[order[k] as int]
            },
{
    let order = choose|order: Seq<usize>| #[trigger]
        crate::tables::enumerates(order, part) && crate::compress::combines(
            nodes,
            order,
            community,
        );
    assert(order.to_set().contains(a) && order.to_set().contains(b));
    let i = choose|i: int| 0 <= i < order.len() && order[i] == a;
    let j = choose|j: int| 0 <= j < order.len() && order[j] == b;
    assert(order.len() != 1);
    assert(order.no_duplicates());
}

} // verus!
