//! No community reaches from one component of the graph into another while nodes move.

use crate::binary32::Binary32;
use crate::graph::GraphView;
use crate::modularity::LocalMove;
use crate::moves::Progress;
use crate::optimizer::ModularityOptimizer;
use crate::tables::CommunityId;
use vstd::prelude::*;

verus! {

impl<N, E> GraphView<N, E> {
    /// A path leads from `a` to `b`.
    pub open spec fn joined(self, a: usize, b: usize) -> bool {
        self.reaches(crate::refine::numbers(self.nodes.len()), a, b)
    }

    /// Being joined by a path is an equivalence.
    pub proof fn law_joined_is_equivalence(self, a: usize, b: usize, c: usize)
        requires
            self.wf(),
            a < self.nodes.len(),
        ensures
            self.joined(a, a),
            self.joined(a, b) ==> self.joined(b, a),
            self.joined(a, b) && self.joined(b, c) ==> self.joined(a, c),
    {
        let all = crate::refine::numbers(self.nodes.len());
        self.lemma_reaches_self(all, a);
        if self.joined(a, b) {
            self.lemma_reaches_back(all, a, b);
            if self.joined(b, c) {
                self.lemma_reaches_on(all, a, b, c);
            }
        }
    }

    /// Neighbours are joined.
    proof fn lemma_adjacent_joined(self, a: usize, b: usize)
        requires
            self.wf(),
            self.adjacent(a, b),
        ensures
            a < self.nodes.len(),
            b < self.nodes.len(),
            self.joined(a, b),
    {
        assert(self.ids.contains_key((a, b)));
        let all = crate::refine::numbers(self.nodes.len());
        self.lemma_reaches_self(all, a);
        self.lemma_reaches_step(all, a, a, b);
    }

    /// The label of each node is the number of a node that it is joined with.
    pub open spec fn anchored(self, labels: Map<usize, CommunityId>) -> bool {
        forall|node: usize|
            node < self.nodes.len() ==> #[trigger] self.joined(node, labels[node] as usize)
    }

    /// Where labels are anchored, a node chooses an anchored label.
    proof fn lemma_choice_anchored(
        self,
        degrees: Seq<Binary32>,
        at: Progress,
        node: usize,
        local_move: LocalMove,
    )
        requires
            self.wf(),
            self.nodes.len() <= usize::MAX,
            self.anchored(at.labels),
            node < self.nodes.len(),
            self.chooses(degrees, at, node, Some(local_move)),
        ensures
            local_move.node == node,
            self.joined(node, local_move.community as usize),
    {
        let c = local_move.community;
        assert(self.candidate(at, node, c));
        self.law_candidates(at, node, c);
        let neighbor = choose|neighbor: usize| #[trigger]
            self.adjacent(node, neighbor) && at.labels[neighbor] == c;
        self.lemma_adjacent_joined(node, neighbor);
        assert(self.joined(neighbor, at.labels[neighbor] as usize));
        self.law_joined_is_equivalence(node, neighbor, c as usize);
    }

    proof fn lemma_choices_anchored(
        self,
        degrees: Seq<Binary32>,
        from: Progress,
        choices: Seq<Option<LocalMove>>,
        t: int,
    )
        requires
            self.wf(),
            self.nodes.len() <= usize::MAX,
            self.anchored(from.labels),
            self.in_turn(degrees, from, choices),
            choices.len() == self.nodes.len(),
            0 <= t <= choices.len(),
        ensures
            self.anchored(from.after_choices(degrees, choices.take(t)).labels),
        decreases t,
    {
        let before = from.after_choices(degrees, choices.take(t - 1));
        let after = from.after_choices(degrees, choices.take(t));
        if 0 < t {
            self.lemma_choices_anchored(degrees, from, choices, t - 1);
            assert(choices.take(t).drop_last() =~= choices.take(t - 1));
            assert(choices.take(t).last() == choices[t - 1]);
            if let Some(local_move) = choices[t - 1] {
                self.lemma_choice_anchored(degrees, before, (t - 1) as usize, local_move);
                assert forall|node: usize| node < self.nodes.len() implies #[trigger] self.joined(
                    node,
                    after.labels[node] as usize,
                ) by {
                    if node != local_move.node {
                        assert(self.joined(node, before.labels[node] as usize));
                    }
                }
            }
        }
    }

    proof fn lemma_sweeps_anchored(
        self,
        degrees: Seq<Binary32>,
        states: Seq<Progress>,
        t: int,
    )
        requires
            self.wf(),
            self.nodes.len() <= usize::MAX,
            self.sweeps(degrees, states),
            0 <= t < states.len(),
            self.anchored(states[0].labels),
        ensures
            self.anchored(states[t].labels),
        decreases t,
    {
        if 0 < t {
            self.lemma_sweeps_anchored(degrees, states, t - 1);
            let from = states[t - 1];
            let to = states[t];
            assert(self.swept(degrees, from, true, to));
            let choices = choose|choices: Seq<Option<LocalMove>>|
                {
                    &&& #[trigger] self.in_turn(degrees, from, choices)
                    &&& choices.len() == self.nodes.len()
                    &&& to == from.after_choices(degrees, choices)
                    &&& true == exists|i: int|
                        0 <= i < choices.len() && (#[trigger] choices[i]) is Some
                };
            self.lemma_choices_anchored(degrees, from, choices, choices.len() as int);
            assert(choices.take(choices.len() as int) =~= choices);
        }
    }

    proof fn lemma_batch_anchored(
        self,
        degrees: Seq<Binary32>,
        from: Progress,
        batch: Seq<LocalMove>,
        t: int,
    )
        requires
            self.wf(),
            self.nodes.len() <= usize::MAX,
            self.anchored(from.labels),
            self.gathered(degrees, from, batch),
            0 <= t <= batch.len(),
        ensures
            self.anchored(from.after_all(degrees, batch.take(t)).labels),
        decreases t,
    {
        let before = from.after_all(degrees, batch.take(t - 1));
        let after = from.after_all(degrees, batch.take(t));
        if 0 < t {
            self.lemma_batch_anchored(degrees, from, batch, t - 1);
            assert(batch.take(t).drop_last() =~= batch.take(t - 1));
            assert(batch.take(t).last() == batch[t - 1]);
            let local_move = batch[t - 1];
            self.lemma_choice_anchored(degrees, from, local_move.node, local_move);
            assert forall|node: usize| node < self.nodes.len() implies #[trigger] self.joined(
                node,
                after.labels[node] as usize,
            ) by {
                if node != local_move.node {
                    assert(self.joined(node, before.labels[node] as usize));
                }
            }
        }
    }

    proof fn lemma_rounds_anchored(
        self,
        degrees: Seq<Binary32>,
        states: Seq<Progress>,
        t: int,
    )
        requires
            self.wf(),
            self.nodes.len() <= usize::MAX,
            self.rounds(degrees, states),
            0 <= t < states.len(),
            self.anchored(states[0].labels),
        ensures
            self.anchored(states[t].labels),
        decreases t,
    {
        if 0 < t {
            self.lemma_rounds_anchored(degrees, states, t - 1);
            let from = states[t - 1];
            let to = states[t];
            assert(self.moved_at_once(degrees, from, to));
            let batch = choose|batch: Seq<LocalMove>| #[trigger]
                self.gathered(degrees, from, batch) && batch.len() > 0 && to == from.after_all(
                    degrees,
                    batch,
                );
            self.lemma_batch_anchored(degrees, from, batch, batch.len() as int);
            assert(batch.take(batch.len() as int) =~= batch);
        }
    }

    /// However the optimization of anchored labels goes, they stay anchored.
    pub proof fn law_optimized_stays_anchored<O: ModularityOptimizer>(
        self,
        start: Map<usize, CommunityId>,
        before: O,
        labels: Map<usize, CommunityId>,
        after: O,
        judges: Seq<&mut O>,
    )
        requires
            self.wf(),
            self.nodes.len() <= usize::MAX,
            self.anchored(start),
            self.optimized(start, before, labels, after, judges),
        ensures
            self.anchored(labels),
    {
        let (from, to, threshold) = choose|from: Progress, to: Progress, threshold: usize| #[trigger]
            self.optimized_within(from, to, threshold, judges) && from.labels == start && to.labels
                == labels && #[trigger] call_ensures(
                O::get_parallel_threshold,
                (&before,),
                threshold,
            ) && (judges.len() == 0 ==> after == before);
        let degrees = self.degrees();
        if self.nodes.len() <= threshold {
            let states = choose|states: Seq<Progress>|
                {
                    &&& #[trigger] self.sweeps(degrees, states)
                    &&& states.len() > 0
                    &&& states[0] == from
                    &&& states.last() == to
                    &&& self.settled(degrees, to) || states.len() > u64::MAX
                };
            self.lemma_sweeps_anchored(degrees, states, states.len() - 1);
        } else {
            let (states, stopped) = choose|states: Seq<Progress>, stopped: bool|
                {
                    &&& #[trigger] crate::optimize::judged(self, states, judges, stopped)
                    &&& self.rounds(degrees, states)
                    &&& states[0] == from
                    &&& states.last() == to
                    &&& stopped || self.settled(degrees, to) || states.len() > u64::MAX
                };
            self.lemma_rounds_anchored(degrees, states, states.len() - 1);
        }
    }
}

} // verus!
