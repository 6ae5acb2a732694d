//! Optimizing modularity by moving nodes.

use crate::batch::{batch_clear, batch_is_empty, batch_moves, batch_new};
use crate::binary32::Binary32;
use crate::graph::{Graph, GraphView};
use crate::modularity::LocalMove;
use crate::moves::Progress;
use crate::optimizer::{ModularityOptimizer, TrivialModularityOptimizer};
use crate::tables::{
    assignments_entries, assignments_get, assignments_insert, weights_entry, weights_new,
    CommunityAssignments, CommunityId, CommunityWeights,
};
use vstd::prelude::*;

verus! {

/// The weighted degrees of the nodes in `order`, added up by community.
pub open spec fn sums(
    degrees: Seq<Binary32>,
    labels: Map<usize, CommunityId>,
    order: Seq<usize>,
) -> Map<CommunityId, Binary32>
    decreases order.len(),
{
    if order.len() == 0 {
        Map::empty()
    } else {
        crate::moves::with_weight(
            sums(degrees, labels, order.drop_last()),
            labels[order.last()],
            degrees[order.last() as int],
        )
    }
}

impl Progress {
    /// The state that an optimization starts in: the weighted degrees are added up by
    /// community, in some order of the nodes.
    pub open spec fn starts(self, degrees: Seq<Binary32>) -> bool {
        exists|order: Seq<usize>| #[trigger]
            crate::tables::enumerates(order, self.labels.dom()) && self.sigma == sums(
                degrees,
                self.labels,
                order,
            )
    }

    /// After the moves in `moves`, one by one.
    pub open spec fn after_all(self, degrees: Seq<Binary32>, moves: Seq<LocalMove>) -> Progress
        decreases moves.len(),
    {
        if moves.len() == 0 {
            self
        } else {
            self.after_all(degrees, moves.drop_last()).after(degrees, moves.last())
        }
    }

    /// After the choices in `choices`, one by one.
    pub open spec fn after_choices(
        self,
        degrees: Seq<Binary32>,
        choices: Seq<Option<LocalMove>>,
    ) -> Progress
        decreases choices.len(),
    {
        if choices.len() == 0 {
            self
        } else {
            let before = self.after_choices(degrees, choices.drop_last());
            match choices.last() {
                None => before,
                Some(local_move) => before.after(degrees, local_move),
            }
        }
    }
}

impl<N, E> GraphView<N, E> {
    /// `choices` are made by the nodes in turn, each knowing the moves before it.
    pub open spec fn in_turn(
        self,
        degrees: Seq<Binary32>,
        from: Progress,
        choices: Seq<Option<LocalMove>>,
    ) -> bool {
        forall|i: int|
            0 <= i < choices.len() ==> self.chooses(
                degrees,
                #[trigger] from.after_choices(degrees, choices.take(i)),
                i as usize,
                choices[i],
            )
    }

    /// Every node has made its choice in turn; `moved` says whether any has moved.
    pub open spec fn swept(
        self,
        degrees: Seq<Binary32>,
        from: Progress,
        moved: bool,
        to: Progress,
    ) -> bool {
        exists|choices: Seq<Option<LocalMove>>|
            {
                &&& #[trigger] self.in_turn(degrees, from, choices)
                &&& choices.len() == self.nodes.len()
                &&& to == from.after_choices(degrees, choices)
                &&& moved == exists|i: int| 0 <= i < choices.len() && (#[trigger] choices[i]) is Some
            }
    }

    /// `states` are the states after sweep upon sweep, each of which moved something.
    pub open spec fn sweeps(self, degrees: Seq<Binary32>, states: Seq<Progress>) -> bool {
        forall|i: int, j: int|
            0 <= i && j == i + 1 && j < states.len() ==> self.swept(
                degrees,
                #[trigger] states[i],
                true,
                #[trigger] states[j],
            )
    }

    /// Sweeps lead from `from` to `to`, where no move gains anything any more, or where
    /// the count of sweeps has run out.
    pub open spec fn optimized_in_turn(
        self,
        degrees: Seq<Binary32>,
        from: Progress,
        to: Progress,
    ) -> bool {
        exists|states: Seq<Progress>|
            {
                &&& #[trigger] self.sweeps(degrees, states)
                &&& states.len() > 0
                &&& states[0] == from
                &&& states.last() == to
                &&& self.settled(degrees, to) || states.len() > u64::MAX
            }
    }

    /// All nodes have chosen from the same state, and the moves were made in some order.
    pub open spec fn moved_at_once(
        self,
        degrees: Seq<Binary32>,
        from: Progress,
        to: Progress,
    ) -> bool {
        exists|batch: Seq<LocalMove>| #[trigger]
            self.gathered(degrees, from, batch) && batch.len() > 0 && to == from.after_all(
                degrees,
                batch,
            )
    }

    /// `states` are the states after round upon round of moves made at once.
    pub open spec fn rounds(self, degrees: Seq<Binary32>, states: Seq<Progress>) -> bool {
        forall|i: int, j: int|
            0 <= i && j == i + 1 && j < states.len() ==> self.moved_at_once(
                degrees,
                #[trigger] states[i],
                #[trigger] states[j],
            )
    }

    /// Rounds lead from `from` to `to`. The optimizer, which is `judges[k]` when it judges
    /// round `k`, has stopped them, or no move gains anything any more, or the count of
    /// rounds has run out.
    pub open spec fn optimized_at_once<O: ModularityOptimizer>(
        self,
        degrees: Seq<Binary32>,
        from: Progress,
        to: Progress,
        judges: Seq<&mut O>,
    ) -> bool {
        exists|states: Seq<Progress>, stopped: bool|
            {
                &&& #[trigger] judged(self, states, judges, stopped)
                &&& self.rounds(degrees, states)
                &&& states[0] == from
                &&& states.last() == to
                &&& stopped || self.settled(degrees, to) || states.len() > u64::MAX
            }
    }

    /// An optimization with the given threshold: with the moves made one by one, or,
    /// where the node count exceeds the threshold, all at once in each round.
    pub open spec fn optimized_within<O: ModularityOptimizer>(
        self,
        from: Progress,
        to: Progress,
        threshold: usize,
        judges: Seq<&mut O>,
    ) -> bool {
        &&& from.starts(self.degrees())
        &&& if self.nodes.len() <= threshold {
            self.optimized_in_turn(self.degrees(), from, to) && judges.len() == 0
        } else {
            self.optimized_at_once(self.degrees(), from, to, judges)
        }
    }

    /// Modularity was optimized from the assignment `start` to the assignment `labels`,
    /// with the threshold that the optimizer gives. The optimizer is `before` at the
    /// start, `after` at the end, and `judges[k]` when it judges round `k`.
    pub open spec fn optimized<O: ModularityOptimizer>(
        self,
        start: Map<usize, CommunityId>,
        before: O,
        labels: Map<usize, CommunityId>,
        after: O,
        judges: Seq<&mut O>,
    ) -> bool {
        exists|from: Progress, to: Progress, threshold: usize| #[trigger]
            self.optimized_within(from, to, threshold, judges) && from.labels == start && to.labels
                == labels && #[trigger] call_ensures(
                O::get_parallel_threshold,
                (&before,),
                threshold,
            ) && (judges.len() == 0 ==> after == before)
    }

    /// What holds of a state on the way: every node has a community, and nothing else,
    /// and each of the communities has its sum.
    pub open spec fn consistent(self, at: Progress) -> bool {
        self.assigns(at.labels) && at.summed()
    }
}

/// A sum is kept for each community in `order`.
pub(crate) proof fn lemma_sums_keys(
    degrees: Seq<Binary32>,
    labels: Map<usize, CommunityId>,
    order: Seq<usize>,
    i: int,
)
    requires
        0 <= i < order.len(),
    ensures
        sums(degrees, labels, order).contains_key(labels[order[i]]),
    decreases order.len(),
{
    if i < order.len() - 1 {
        lemma_sums_keys(degrees, labels, order.drop_last(), i);
    }
}

impl<N, E> GraphView<N, E> {
    /// A move to another community leaves a state consistent.
    proof fn lemma_after(self, degrees: Seq<Binary32>, at: Progress, local_move: LocalMove)
        requires
            self.consistent(at),
            local_move.node < self.nodes.len(),
        ensures
            self.consistent(at.after(degrees, local_move)),
    {
        let to = at.after(degrees, local_move);
        assert(at.labels.contains_key(local_move.node));
        assert forall|node: usize| #[trigger] to.labels.contains_key(node) <==> node
            < self.nodes.len() by {
            assert(at.labels.contains_key(node) <==> node < self.nodes.len());
        }
        assert forall|node: usize| #[trigger]
            to.labels.contains_key(node) implies to.sigma.contains_key(to.labels[node]) by {
            assert(at.labels.contains_key(node));
        }
    }
}

/// Makes a move: its node changes community and takes its weighted degree along.
fn make_move(
    local_move: &LocalMove,
    assignments: &mut CommunityAssignments,
    weighted_degrees: &[Binary32],
    sigma_tot: &mut CommunityWeights,
)
    requires
        old(assignments)@.contains_key(local_move.node),
        old(sigma_tot)@.contains_key(old(assignments)@[local_move.node]),
        local_move.node < weighted_degrees@.len(),
    ensures
        (Progress { labels: final(assignments)@, sigma: final(sigma_tot)@ }) == (Progress {
            labels: old(assignments)@,
            sigma: old(sigma_tot)@,
        }).after(weighted_degrees@, *local_move),
{
    let zero: Binary32 = Binary32::from_bits(0);
    let old_community: CommunityId = assignments_get(assignments, local_move.node).unwrap();
    let new_community: CommunityId = local_move.community;
    let k: Binary32 = weighted_degrees[local_move.node];
    let left = weights_entry(sigma_tot, old_community, zero);
    *left = left.minus(k);
    let joined = weights_entry(sigma_tot, new_community, zero);
    *joined = joined.plus(k);
    let _ = assignments_insert(assignments, local_move.node, new_community);
}

impl<N, E> Graph<N, E> {
    /// The sums of the weighted degrees by community.
    pub fn sum_communities(
        &self,
        assignments: &CommunityAssignments,
        weighted_degrees: &[Binary32],
    ) -> (sigma_tot: CommunityWeights)
        requires
            self@.assigns(assignments@),
            weighted_degrees@.len() == self@.nodes.len(),
        ensures
            (Progress { labels: assignments@, sigma: sigma_tot@ }).starts(weighted_degrees@),
            (Progress { labels: assignments@, sigma: sigma_tot@ }).summed(),
    {
        let ghost degrees = weighted_degrees@;
        let ghost labels = assignments@;
        let entries: Vec<(usize, CommunityId)> = assignments_entries(assignments);
        let ghost order = entries@.map_values(|entry: (usize, CommunityId)| entry.0);
        let mut sigma_tot: CommunityWeights = weights_new();
        let mut t: usize = 0;
        assert(order.take(0) =~= Seq::<usize>::empty());
        while t < entries.len()
            invariant
                labels == assignments@,
                degrees == weighted_degrees@,
                self@.assigns(labels),
                degrees.len() == self@.nodes.len(),
                crate::tables::lists(entries@, labels),
                order == entries@.map_values(|entry: (usize, CommunityId)| entry.0),
                t <= entries.len(),
                sigma_tot@ == sums(degrees, labels, order.take(t as int)),
            decreases entries.len() - t,
        {
            let (node, community) = entries[t];
            proof {
                assert(order[t as int] == node);
                assert(order.to_set().contains(node));
                assert(labels.contains_key(node));
                assert(order.take(t + 1).drop_last() =~= order.take(t as int));
                assert(order.take(t + 1).last() == node);
            }
            let place = weights_entry(&mut sigma_tot, community, Binary32::from_bits(0));
            *place = place.plus(weighted_degrees[node]);
            t = t + 1;
        }
        proof {
            assert(order.take(t as int) =~= order);
            let at = Progress { labels, sigma: sigma_tot@ };
            assert(crate::tables::enumerates(order, at.labels.dom()));
            assert forall|node: usize| #[trigger]
                at.labels.contains_key(node) implies at.sigma.contains_key(at.labels[node]) by {
                assert(order.to_set().contains(node));
                let i = choose|i: int| 0 <= i < order.len() && order[i] == node;
                lemma_sums_keys(degrees, labels, order, i);
            }
        }
        sigma_tot
    }

    /// Lets every node move in turn, and says whether any has moved.
    fn sweep(
        &self,
        assignments: &mut CommunityAssignments,
        weighted_degrees: &[Binary32],
        sigma_tot: &mut CommunityWeights,
    ) -> (any_moved: bool)
        requires
            self.wf(),
            weighted_degrees@.len() == self@.nodes.len(),
            self@.consistent(Progress { labels: old(assignments)@, sigma: old(sigma_tot)@ }),
        ensures
            self@.consistent(Progress { labels: final(assignments)@, sigma: final(sigma_tot)@ }),
            self@.swept(
                weighted_degrees@,
                Progress { labels: old(assignments)@, sigma: old(sigma_tot)@ },
                any_moved,
                Progress { labels: final(assignments)@, sigma: final(sigma_tot)@ },
            ),
    {
        let ghost view = self@;
        let ghost degrees = weighted_degrees@;
        let ghost from = Progress { labels: assignments@, sigma: sigma_tot@ };
        let ghost mut choices: Seq<Option<LocalMove>> = Seq::empty();
        let node_count: usize = self.count_nodes();
        let mut any_moved: bool = false;
        let mut i: usize = 0;
        while i < node_count
            invariant
                self.wf(),
                view == self@,
                degrees == weighted_degrees@,
                node_count == view.nodes.len(),
                degrees.len() == node_count,
                i <= node_count,
                choices.len() == i,
                view.in_turn(degrees, from, choices),
                view.consistent(Progress { labels: assignments@, sigma: sigma_tot@ }),
                (Progress { labels: assignments@, sigma: sigma_tot@ }) == from.after_choices(
                    degrees,
                    choices,
                ),
                any_moved == exists|j: int| 0 <= j < choices.len() && (#[trigger] choices[j]) is Some,
            decreases node_count - i,
        {
            let ghost at = Progress { labels: assignments@, sigma: sigma_tot@ };
            proof {
                assert(view.covered_by(at.labels));
                view.lemma_covered_around(at.labels, i);
            }
            let choice: Option<LocalMove> = self.fast_local_move(
                i,
                assignments,
                weighted_degrees,
                sigma_tot,
            );
            let ghost longer = choices.push(choice);
            proof {
                assert(longer.drop_last() =~= choices);
                assert forall|j: int| 0 <= j < longer.len() implies view.chooses(
                    degrees,
                    #[trigger] from.after_choices(degrees, longer.take(j)),
                    j as usize,
                    longer[j],
                ) by {
                    if j < choices.len() {
                        assert(longer.take(j) =~= choices.take(j));
                        assert(longer[j] == choices[j]);
                    } else {
                        assert(longer.take(j) =~= choices);
                    }
                }
            }
            if let Some(local_move) = choice {
                proof {
                    assert(at.labels.contains_key(i));
                    view.lemma_after(degrees, at, local_move);
                }
                make_move(&local_move, assignments, weighted_degrees, sigma_tot);
                any_moved = true;
                assert(longer[i as int] is Some);
            } else {
                proof {
                    assert forall|j: int| 0 <= j < longer.len() && (
                    #[trigger] longer[j]) is Some implies j < choices.len() by {}
                    if any_moved {
                        let j = choose|j: int| 0 <= j < choices.len() && (
                        #[trigger] choices[j]) is Some;
                        assert(longer[j] is Some);
                    }
                    if exists|j: int| 0 <= j < longer.len() && (#[trigger] longer[j]) is Some {
                        let j = choose|j: int| 0 <= j < longer.len() && (
                        #[trigger] longer[j]) is Some;
                        assert(choices[j] is Some);
                    }
                }
            }
            proof {
                choices = longer;
            }
            i = i + 1;
        }
        any_moved
    }
}

impl<N, E> GraphView<N, E> {
    /// Choices to stay leave the state as it is.
    proof fn lemma_quiet(
        self,
        degrees: Seq<Binary32>,
        from: Progress,
        choices: Seq<Option<LocalMove>>,
    )
        requires
            forall|i: int| 0 <= i < choices.len() ==> (#[trigger] choices[i]) is None,
        ensures
            from.after_choices(degrees, choices) == from,
        decreases choices.len(),
    {
        if choices.len() > 0 {
            let fewer = choices.drop_last();
            assert forall|i: int| 0 <= i < fewer.len() implies (#[trigger] fewer[i]) is None by {
                assert(fewer[i] == choices[i]);
            }
            self.lemma_quiet(degrees, from, fewer);
        }
    }

    /// A sweep in which nothing moves changes nothing, and shows that no move gains
    /// anything.
    pub proof fn law_quiet_sweep(self, degrees: Seq<Binary32>, from: Progress, to: Progress)
        requires
            self.swept(degrees, from, false, to),
        ensures
            to == from,
            self.settled(degrees, from),
    {
        let choices = choose|choices: Seq<Option<LocalMove>>|
            {
                &&& #[trigger] self.in_turn(degrees, from, choices)
                &&& choices.len() == self.nodes.len()
                &&& to == from.after_choices(degrees, choices)
                &&& false == exists|i: int|
                    0 <= i < choices.len() && (#[trigger] choices[i]) is Some
            };
        self.lemma_quiet(degrees, from, choices);
        assert forall|node: usize| node < self.nodes.len() implies #[trigger] self.chooses(
            degrees,
            from,
            node,
            None,
        ) by {
            let i = node as int;
            let prefix = choices.take(i);
            assert forall|j: int| 0 <= j < prefix.len() implies (#[trigger] prefix[j]) is None by {
                assert(prefix[j] == choices[j]);
            }
            self.lemma_quiet(degrees, from, prefix);
            assert(choices[i] is None);
            let _ = from.after_choices(degrees, choices.take(i));
        }
    }
}

impl<N, E> Graph<N, E> {
    /// Lets the nodes move in turn, until a sweep in which none has moved. This avoids the
    /// cycles that moves made at once can run into.
    fn optimize_in_turn(
        &self,
        assignments: &mut CommunityAssignments,
        weighted_degrees: &[Binary32],
        sigma_tot: &mut CommunityWeights,
    )
        requires
            self.wf(),
            weighted_degrees@.len() == self@.nodes.len(),
            self@.consistent(Progress { labels: old(assignments)@, sigma: old(sigma_tot)@ }),
        ensures
            self@.consistent(Progress { labels: final(assignments)@, sigma: final(sigma_tot)@ }),
            self@.optimized_in_turn(
                weighted_degrees@,
                Progress { labels: old(assignments)@, sigma: old(sigma_tot)@ },
                Progress { labels: final(assignments)@, sigma: final(sigma_tot)@ },
            ),
    {
        let ghost view = self@;
        let ghost degrees = weighted_degrees@;
        let ghost from = Progress { labels: assignments@, sigma: sigma_tot@ };
        let ghost mut states: Seq<Progress> = seq![from];
        let mut sweeps: u64 = 0;
        let mut any_moved: bool = true;
        while any_moved && sweeps < u64::MAX
            invariant
                self.wf(),
                view == self@,
                degrees == weighted_degrees@,
                degrees.len() == view.nodes.len(),
                view.sweeps(degrees, states),
                states.len() == sweeps + 1,
                states[0] == from,
                states.last() == (Progress { labels: assignments@, sigma: sigma_tot@ }),
                view.consistent(states.last()),
                !any_moved ==> view.settled(degrees, states.last()),
            decreases u64::MAX - sweeps, any_moved as int,
        {
            let ghost at = states.last();
            any_moved = self.sweep(assignments, weighted_degrees, sigma_tot);
            let ghost to = Progress { labels: assignments@, sigma: sigma_tot@ };
            if any_moved {
                proof {
                    let longer = states.push(to);
                    assert forall|i: int, j: int|
                        0 <= i && j == i + 1 && j < longer.len() implies view.swept(
                        degrees,
                        #[trigger] longer[i],
                        true,
                        #[trigger] longer[j],
                    ) by {
                        assert(longer[i] == states[i]);
                        if j < states.len() {
                            assert(longer[j] == states[j]);
                        }
                    }
                    states = longer;
                }
                sweeps = sweeps + 1;
            } else {
                proof {
                    view.law_quiet_sweep(degrees, at, to);
                }
            }
        }
    }
}

/// Each round of `states` was put to the judgement of the optimizer, which is
/// `judges[k]` when it judges round `k`, and at most the last verdict was to stop.
pub open spec fn judged<N, E, O: ModularityOptimizer>(
    view: GraphView<N, E>,
    states: Seq<Progress>,
    judges: Seq<&mut O>,
    stopped: bool,
) -> bool {
    &&& states.len() == judges.len() + 1
    &&& stopped ==> judges.len() > 0
    &&& forall|k: int|
        0 <= k < judges.len() ==> call_ensures(
            O::is_converged,
            (
                #[trigger] judges[k],
                view.modularity(states[k].labels),
                view.modularity(states[k + 1].labels),
            ),
            stopped && k == judges.len() - 1,
        )
}

/// Asks the optimizer whether to stop.
fn judge<O: ModularityOptimizer>(optimizer: &mut O, previous: Binary32, current: Binary32) -> (converged:
    bool)
    ensures
        exists|asked: &mut O|
            #![trigger call_ensures(O::is_converged, (asked, previous, current), converged)]
            *asked == *old(optimizer) && *final(asked) == *final(optimizer) && call_ensures(
                O::is_converged,
                (asked, previous, current),
                converged,
            ),
{
    optimizer.is_converged(previous, current)
}

impl<N, E> Graph<N, E> {
    /// Makes the moves of a batch.
    fn make_moves(
        &self,
        moves: &Vec<LocalMove>,
        assignments: &mut CommunityAssignments,
        weighted_degrees: &[Binary32],
        sigma_tot: &mut CommunityWeights,
    )
        requires
            weighted_degrees@.len() == self@.nodes.len(),
            self@.consistent(Progress { labels: old(assignments)@, sigma: old(sigma_tot)@ }),
            forall|i: int| 0 <= i < moves.len() ==> (#[trigger] moves[i]).node < self@.nodes.len(),
        ensures
            self@.consistent(Progress { labels: final(assignments)@, sigma: final(sigma_tot)@ }),
            (Progress { labels: final(assignments)@, sigma: final(sigma_tot)@ }) == (Progress {
                labels: old(assignments)@,
                sigma: old(sigma_tot)@,
            }).after_all(weighted_degrees@, moves@),
    {
        let ghost view = self@;
        let ghost degrees = weighted_degrees@;
        let ghost from = Progress { labels: assignments@, sigma: sigma_tot@ };
        let mut i: usize = 0;
        assert(moves@.take(0) =~= Seq::<LocalMove>::empty());
        while i < moves.len()
            invariant
                view == self@,
                degrees == weighted_degrees@,
                degrees.len() == view.nodes.len(),
                i <= moves.len(),
                forall|j: int| 0 <= j < moves.len() ==> (#[trigger] moves[j]).node < view.nodes.len(),
                view.consistent(Progress { labels: assignments@, sigma: sigma_tot@ }),
                (Progress { labels: assignments@, sigma: sigma_tot@ }) == from.after_all(
                    degrees,
                    moves@.take(i as int),
                ),
            decreases moves.len() - i,
        {
            proof {
                let at = Progress { labels: assignments@, sigma: sigma_tot@ };
                assert(moves[i as int].node < view.nodes.len());
                assert(at.labels.contains_key(moves[i as int].node));
                view.lemma_after(degrees, at, moves[i as int]);
                assert(moves@.take(i + 1).drop_last() =~= moves@.take(i as int));
            }
            make_move(&moves[i], assignments, weighted_degrees, sigma_tot);
            i = i + 1;
        }
        assert(moves@.take(i as int) =~= moves@);
    }
}

impl<N: Send + Sync, E: Send + Sync> Graph<N, E> {
    /// Lets all nodes choose from the same state, in parallel, makes their moves, and
    /// goes on until none moves or the optimizer stops.
    fn optimize_at_once<O: ModularityOptimizer>(
        &self,
        assignments: &mut CommunityAssignments,
        weighted_degrees: &[Binary32],
        sigma_tot: &mut CommunityWeights,
        optimizer: &mut O,
    )
        requires
            self.wf(),
            weighted_degrees@.len() == self@.nodes.len(),
            self@.consistent(Progress { labels: old(assignments)@, sigma: old(sigma_tot)@ }),
        ensures
            self@.consistent(Progress { labels: final(assignments)@, sigma: final(sigma_tot)@ }),
            exists|judges: Seq<&mut O>|
                {
                    &&& #[trigger] self@.optimized_at_once(
                        weighted_degrees@,
                        Progress { labels: old(assignments)@, sigma: old(sigma_tot)@ },
                        Progress { labels: final(assignments)@, sigma: final(sigma_tot)@ },
                        judges,
                    )
                    &&& judges.len() == 0 ==> *final(optimizer) == *old(optimizer)
                    &&& judges.len() > 0 ==> *judges[0] == *old(optimizer) && *final(judges.last())
                        == *final(optimizer)
                    &&& forall|j: int, k: int|
                        0 <= j && k == j + 1 && k < judges.len()
                            ==> *(#[trigger] judges[k]) == *final(#[trigger] judges[j])
                },
    {
        let ghost view = self@;
        let ghost degrees = weighted_degrees@;
        let ghost from = Progress { labels: assignments@, sigma: sigma_tot@ };
        let ghost mut states: Seq<Progress> = seq![from];
        let mut batch: boxcar::Vec<LocalMove> = batch_new();
        proof {
            assert forall|node: usize| node < view.nodes.len() implies #[trigger] from.labels.contains_key(
                node,
            ) by {}
        }
        let mut previous_modularity: Binary32 = self.compute_modularity(assignments);
        let mut rounds: u64 = 0;
        let mut going: bool = true;
        let mut stopped: bool = false;
        proof {
            let none: Seq<&mut O> = Seq::empty();
            assert(judged(view, states, none, false));
        }
        while going && rounds < u64::MAX
            invariant
                self.wf(),
                view == self@,
                degrees == weighted_degrees@,
                degrees.len() == view.nodes.len(),
                crate::batch::collected(batch).len() == 0,
                view.rounds(degrees, states),
                states.len() == rounds + 1,
                states[0] == from,
                states.last() == (Progress { labels: assignments@, sigma: sigma_tot@ }),
                view.consistent(states.last()),
                previous_modularity == view.modularity(states.last().labels),
                stopped ==> !going,
                !going && !stopped ==> view.settled(degrees, states.last()),
                exists|judges: Seq<&mut O>|
                    {
                        &&& #[trigger] judged(view, states, judges, stopped)
                        &&& judges.len() == 0 ==> *optimizer == *old(optimizer)
                        &&& judges.len() > 0 ==> *judges[0] == *old(optimizer)
                            && *final(judges.last()) == *optimizer
                        &&& forall|j: int, k: int|
                            0 <= j && k == j + 1 && k < judges.len()
                                ==> *(#[trigger] judges[k]) == *final(#[trigger] judges[j])
                    },
            decreases u64::MAX - rounds, going as int,
        {
            let ghost at = states.last();
            let ghost before = *optimizer;
            proof {
                assert forall|node: usize| node < view.nodes.len() implies #[trigger] at.labels.contains_key(
                    node,
                ) by {}
            }
            self.gather_moves(assignments, weighted_degrees, sigma_tot, &mut batch);
            if batch_is_empty(&batch) {
                going = false;
            } else {
                let moves: Vec<LocalMove> = batch_moves(&batch);
                self.make_moves(&moves, assignments, weighted_degrees, sigma_tot);
                batch_clear(&mut batch);
                let ghost to = Progress { labels: assignments@, sigma: sigma_tot@ };
                proof {
                    assert(view.moved_at_once(degrees, at, to)) by {
                        assert(view.gathered(degrees, at, moves@));
                    }
                    assert forall|node: usize| node < view.nodes.len() implies #[trigger] to.labels.contains_key(
                        node,
                    ) by {}
                }
                let current_modularity: Binary32 = self.compute_modularity(assignments);
                stopped = judge(optimizer, previous_modularity, current_modularity);
                proof {
                    let asked = choose|asked: &mut O|
                        #![trigger call_ensures(O::is_converged, (asked, previous_modularity, current_modularity), stopped)]
                        *asked == before && *final(asked) == *optimizer && call_ensures(
                            O::is_converged,
                            (asked, previous_modularity, current_modularity),
                            stopped,
                        );
                    let judges = choose|judges: Seq<&mut O>|
                        {
                            &&& #[trigger] judged(view, states, judges, false)
                            &&& judges.len() == 0 ==> before == *old(optimizer)
                            &&& judges.len() > 0 ==> *judges[0] == *old(optimizer)
                                && *final(judges.last()) == before
                            &&& forall|j: int, k: int|
                                0 <= j && k == j + 1 && k < judges.len()
                                    ==> *(#[trigger] judges[k]) == *final(#[trigger] judges[j])
                        };
                    let more = judges.push(asked);
                    let longer = states.push(to);
                    assert forall|i: int, j: int|
                        0 <= i && j == i + 1 && j < longer.len() implies view.moved_at_once(
                        degrees,
                        #[trigger] longer[i],
                        #[trigger] longer[j],
                    ) by {
                        assert(longer[i] == states[i]);
                        if j < states.len() {
                            assert(longer[j] == states[j]);
                        }
                    }
                    assert forall|k: int| 0 <= k < more.len() implies call_ensures(
                        O::is_converged,
                        (
                            #[trigger] more[k],
                            view.modularity(longer[k].labels),
                            view.modularity(longer[k + 1].labels),
                        ),
                        stopped && k == more.len() - 1,
                    ) by {
                        if k < judges.len() {
                            assert(more[k] == judges[k]);
                            assert(longer[k] == states[k]);
                            assert(longer[k + 1] == states[k + 1]);
                        } else {
                            assert(longer[k] == at);
                            assert(longer[k + 1] == to);
                        }
                    }
                    assert(judged(view, longer, more, stopped));
                    assert(more.len() > 0 && *more[0] == *old(optimizer));
                    assert(*final(more.last()) == *optimizer);
                    assert forall|j: int, k: int|
                        0 <= j && k == j + 1 && k < more.len()
                            implies *(#[trigger] more[k]) == *final(#[trigger] more[j]) by {
                        assert(more[j] == judges[j]);
                        if k < judges.len() {
                            assert(more[k] == judges[k]);
                        }
                    }
                    states = longer;
                }
                going = !stopped;
                previous_modularity = current_modularity;
                rounds = rounds + 1;
            }
        }
        proof {
            let judges = choose|judges: Seq<&mut O>|
                {
                    &&& #[trigger] judged(view, states, judges, stopped)
                    &&& judges.len() == 0 ==> *optimizer == *old(optimizer)
                    &&& judges.len() > 0 ==> *judges[0] == *old(optimizer)
                        && *final(judges.last()) == *optimizer
                    &&& forall|j: int, k: int|
                        0 <= j && k == j + 1 && k < judges.len()
                            ==> *(#[trigger] judges[k]) == *final(#[trigger] judges[j])
                };
            assert(view.optimized_at_once(degrees, from, states.last(), judges));
        }
    }

    /// Optimizes the modularity of an assignment. Where the node count exceeds the
    /// optimizer's threshold, all nodes move at once in each round, and the optimizer
    /// judges every round but one in which none moves; else the nodes move in turn.
    pub fn optimize_modularity<O: ModularityOptimizer>(
        &self,
        assignments: &mut CommunityAssignments,
        optimizer: &mut O,
    )
        requires
            self.wf(),
            self@.assigns(old(assignments)@),
        ensures
            self@.assigns(final(assignments)@),
            exists|judges: Seq<&mut O>|
                {
                    &&& #[trigger] self@.optimized(
                        old(assignments)@,
                        *old(optimizer),
                        final(assignments)@,
                        *final(optimizer),
                        judges,
                    )
                    &&& judges.len() > 0 ==> *judges[0] == *old(optimizer) && *final(judges.last())
                        == *final(optimizer)
                    &&& forall|j: int, k: int|
                        0 <= j && k == j + 1 && k < judges.len()
                            ==> *(#[trigger] judges[k]) == *final(#[trigger] judges[j])
                },
    {
        let ghost view = self@;
        let ghost start = assignments@;
        let ghost before = *optimizer;
        let node_count: usize = self.count_nodes();
        let weighted_degrees: Vec<Binary32> = self.weighted_degrees();
        let mut sigma_tot: CommunityWeights = self.sum_communities(
            assignments,
            weighted_degrees.as_slice(),
        );
        let ghost from = Progress { labels: assignments@, sigma: sigma_tot@ };
        let parallel_threshold: usize = optimizer.get_parallel_threshold();
        assert(call_ensures(O::get_parallel_threshold, (&before,), parallel_threshold));
        if node_count <= parallel_threshold {
            self.optimize_in_turn(assignments, weighted_degrees.as_slice(), &mut sigma_tot);
            proof {
                let to = Progress { labels: assignments@, sigma: sigma_tot@ };
                let none: Seq<&mut O> = Seq::empty();
                assert(view.optimized_within(from, to, parallel_threshold, none));
                assert(view.optimized(start, before, assignments@, *optimizer, none));
            }
        } else {
            self.optimize_at_once(
                assignments,
                weighted_degrees.as_slice(),
                &mut sigma_tot,
                optimizer,
            );
            proof {
                let to = Progress { labels: assignments@, sigma: sigma_tot@ };
                let judges = choose|judges: Seq<&mut O>|
                    {
                        &&& #[trigger] view.optimized_at_once(view.degrees(), from, to, judges)
                        &&& judges.len() == 0 ==> *optimizer == before
                        &&& judges.len() > 0 ==> *judges[0] == before
                            && *final(judges.last()) == *optimizer
                        &&& forall|j: int, k: int|
                            0 <= j && k == j + 1 && k < judges.len()
                                ==> *(#[trigger] judges[k]) == *final(#[trigger] judges[j])
                    };
                assert(view.optimized_within(from, to, parallel_threshold, judges));
                assert(view.optimized(start, before, assignments@, *optimizer, judges));
            }
        }
    }
}

impl<N, E> GraphView<N, E> {
    /// With the trivial optimizer, moves are made at once if and only if the node count
    /// exceeds its scale. Else no move gains anything in the end, unless the count of
    /// sweeps has run out.
    pub proof fn law_scale_decides(
        self,
        start: Map<usize, CommunityId>,
        before: TrivialModularityOptimizer,
        labels: Map<usize, CommunityId>,
        after: TrivialModularityOptimizer,
        judges: Seq<&mut TrivialModularityOptimizer>,
    )
        requires
            self.optimized(start, before, labels, after, judges),
        ensures
            self.nodes.len() <= before.parallel_scale ==> judges.len() == 0 && exists|
                from: Progress,
                to: Progress,
            | #[trigger]
                self.optimized_in_turn(self.degrees(), from, to) && from.labels == start && to.labels
                    == labels,
            self.nodes.len() > before.parallel_scale ==> exists|from: Progress, to: Progress|
                #[trigger]
                self.optimized_at_once(self.degrees(), from, to, judges) && from.labels == start
                    && to.labels == labels,
    {
        let (from, to, threshold) = choose|from: Progress, to: Progress, threshold: usize| #[trigger]
            self.optimized_within(from, to, threshold, judges) && from.labels == start && to.labels
                == labels && #[trigger] call_ensures(
                TrivialModularityOptimizer::get_parallel_threshold,
                (&before,),
                threshold,
            ) && (judges.len() == 0 ==> after == before);
        assert(threshold == before.parallel_scale);
    }
}

} // verus!
