//! Moves raise modularity.
//!
//! The gains that moves are chosen by are rounded. Where rounding turns no comparison of
//! gains round, the choices are those of exact arithmetic, and the laws here hold.

use crate::binary32::Binary32;
use crate::graph::GraphView;
use crate::modularity::LocalMove;
use crate::moves::Progress;
use crate::optimizer::ModularityOptimizer;
use crate::tables::CommunityId;
use vstd::prelude::*;

verus! {

impl<N, E> GraphView<N, E> {
    /// For `node`, the gains of moves compare with each other and with zero as they do
    /// without rounding.
    pub open spec fn decides_exactly(
        self,
        degrees: Seq<Binary32>,
        at: Progress,
        node: usize,
    ) -> bool {
        &&& forall|c: CommunityId| #[trigger]
            self.candidate(at, node, c) ==> (self.improves(degrees, at, node, c)
                <==> self.exact_gain(at.labels, node, c) > 0)
        &&& forall|c: CommunityId, d: CommunityId| #[trigger]
            self.candidate(at, node, c) && #[trigger] self.candidate(at, node, d) ==> (self.gain(
                degrees,
                at,
                node,
                c,
            ).below(self.gain(degrees, at, node, d)) <==> self.exact_gain(at.labels, node, c)
                < self.exact_gain(at.labels, node, d))
    }

    /// The modularity that a move of `node` to the community of `neighbor` leads to.
    pub open spec fn pairs_beside(
        self,
        labels: Map<usize, CommunityId>,
        node: usize,
        neighbor: usize,
    ) -> int {
        self.exact_pairs(labels.insert(node, labels[neighbor]))
    }

    /// No move of `node` to the community of a neighbour raises modularity.
    pub open spec fn at_rest(self, labels: Map<usize, CommunityId>, node: usize) -> bool {
        forall|neighbor: usize| #[trigger]
            self.adjacent(node, neighbor) ==> self.pairs_beside(labels, node, neighbor)
                <= self.exact_pairs(labels)
    }

    /// A chosen move goes to the community of a neighbour, raises modularity, and no move
    /// to the community of a neighbour raises it more.
    pub proof fn law_choice_is_best(
        self,
        degrees: Seq<Binary32>,
        at: Progress,
        node: usize,
        local_move: LocalMove,
    )
        requires
            self.wf(),
            self.nodes.len() <= usize::MAX,
            node < self.nodes.len(),
            at.labels.contains_key(node),
            self.decides_exactly(degrees, at, node),
            self.chooses(degrees, at, node, Some(local_move)),
        ensures
            local_move.node == node,
            local_move.community != at.labels[node],
            exists|neighbor: usize| #[trigger]
                self.adjacent(node, neighbor) && at.labels[neighbor] == local_move.community,
            self.exact_pairs(at.after(degrees, local_move).labels) > self.exact_pairs(at.labels),
            forall|neighbor: usize| #[trigger]
                self.adjacent(node, neighbor) ==> self.pairs_beside(at.labels, node, neighbor)
                    <= self.exact_pairs(at.after(degrees, local_move).labels),
    {
        let best = local_move.community;
        assert(self.candidate(at, node, best));
        self.law_candidates(at, node, best);
        self.law_gain_is_the_change(at.labels, node, best);
        assert forall|neighbor: usize| #[trigger] self.adjacent(
            node,
            neighbor,
        ) implies self.pairs_beside(at.labels, node, neighbor) <= self.exact_pairs(
            at.after(degrees, local_move).labels,
        ) by {
            let c = at.labels[neighbor];
            if c == at.labels[node] {
                assert(at.labels.insert(node, c) =~= at.labels);
            } else {
                self.law_candidates(at, node, c);
                assert(self.candidate(at, node, c));
                self.law_gain_is_the_change(at.labels, node, c);
            }
        }
    }

    /// A node chooses no move if and only if none raises modularity.
    pub proof fn law_no_choice_is_rest(self, degrees: Seq<Binary32>, at: Progress, node: usize)
        requires
            self.wf(),
            self.nodes.len() <= usize::MAX,
            node < self.nodes.len(),
            at.labels.contains_key(node),
            self.decides_exactly(degrees, at, node),
        ensures
            self.chooses(degrees, at, node, None) <==> self.at_rest(at.labels, node),
    {
        if self.chooses(degrees, at, node, None) {
            assert forall|neighbor: usize| #[trigger] self.adjacent(
                node,
                neighbor,
            ) implies self.pairs_beside(at.labels, node, neighbor) <= self.exact_pairs(
                at.labels,
            ) by {
                let c = at.labels[neighbor];
                if c == at.labels[node] {
                    assert(at.labels.insert(node, c) =~= at.labels);
                } else {
                    self.law_candidates(at, node, c);
                    assert(self.candidate(at, node, c));
                    self.law_gain_is_the_change(at.labels, node, c);
                }
            }
        }
        if self.at_rest(at.labels, node) {
            assert forall|c: CommunityId| #[trigger]
                self.candidate(at, node, c) implies !self.improves(degrees, at, node, c) by {
                self.law_candidates(at, node, c);
                let neighbor = choose|neighbor: usize| #[trigger]
                    self.adjacent(node, neighbor) && at.labels[neighbor] == c;
                self.law_gain_is_the_change(at.labels, node, c);
                assert(self.pairs_beside(at.labels, node, neighbor) <= self.exact_pairs(
                    at.labels,
                ));
            }
        }
    }

    /// A settled state is a local optimum of modularity.
    pub proof fn law_settled_is_optimal(self, degrees: Seq<Binary32>, at: Progress, node: usize)
        requires
            self.wf(),
            self.nodes.len() <= usize::MAX,
            self.assigns(at.labels),
            self.settled(degrees, at),
            node < self.nodes.len(),
            self.decides_exactly(degrees, at, node),
        ensures
            self.at_rest(at.labels, node),
    {
        assert(at.labels.contains_key(node));
        assert(self.chooses(degrees, at, node, None));
        self.law_no_choice_is_rest(degrees, at, node);
    }

    /// Every node in its turn decides as without rounding.
    pub open spec fn turns_exact(
        self,
        degrees: Seq<Binary32>,
        from: Progress,
        choices: Seq<Option<LocalMove>>,
    ) -> bool {
        forall|i: int|
            0 <= i < choices.len() ==> self.decides_exactly(
                degrees,
                #[trigger] from.after_choices(degrees, choices.take(i)),
                i as usize,
            )
    }

    /// Moves made in turn never lower modularity, and raise it if there is one.
    pub proof fn law_turns_raise(
        self,
        degrees: Seq<Binary32>,
        from: Progress,
        choices: Seq<Option<LocalMove>>,
    )
        requires
            self.wf(),
            self.nodes.len() <= usize::MAX,
            self.assigns(from.labels),
            self.in_turn(degrees, from, choices),
            self.turns_exact(degrees, from, choices),
            choices.len() <= self.nodes.len(),
        ensures
            self.assigns(from.after_choices(degrees, choices).labels),
            self.exact_pairs(from.after_choices(degrees, choices).labels) >= self.exact_pairs(
                from.labels,
            ),
            (exists|i: int| 0 <= i < choices.len() && (#[trigger] choices[i]) is Some)
                ==> self.exact_pairs(from.after_choices(degrees, choices).labels)
                > self.exact_pairs(from.labels),
        decreases choices.len(),
    {
        if choices.len() > 0 {
            let fewer = choices.drop_last();
            let last = choices.len() - 1;
            let before = from.after_choices(degrees, fewer);
            assert forall|i: int| 0 <= i < fewer.len() implies self.chooses(
                degrees,
                #[trigger] from.after_choices(degrees, fewer.take(i)),
                i as usize,
                fewer[i],
            ) && self.decides_exactly(
                degrees,
                from.after_choices(degrees, fewer.take(i)),
                i as usize,
            ) by {
                assert(fewer.take(i) =~= choices.take(i));
                let _ = from.after_choices(degrees, choices.take(i));
            }
            self.law_turns_raise(degrees, from, fewer);
            assert(choices.take(last) =~= fewer);
            let _ = from.after_choices(degrees, choices.take(last));
            assert(before.labels.contains_key(last as usize));
            match choices[last] {
                Some(local_move) => {
                    self.law_choice_is_best(degrees, before, last as usize, local_move);
                    let after = before.after(degrees, local_move);
                    assert forall|node: usize| #[trigger] after.labels.contains_key(node) <==> node
                        < self.nodes.len() by {
                        assert(before.labels.contains_key(node) <==> node < self.nodes.len());
                    }
                },
                None => {
                    if exists|i: int| 0 <= i < choices.len() && (#[trigger] choices[i]) is Some {
                        let i = choose|i: int|
                            0 <= i < choices.len() && (#[trigger] choices[i]) is Some;
                        assert(fewer[i] is Some);
                    }
                },
            }
        }
    }

    /// Every node has made its choice in turn, as without rounding, and some node has
    /// moved.
    pub open spec fn swept_exactly(
        self,
        degrees: Seq<Binary32>,
        from: Progress,
        to: Progress,
    ) -> bool {
        exists|choices: Seq<Option<LocalMove>>|
            {
                &&& #[trigger] self.in_turn(degrees, from, choices)
                &&& self.turns_exact(degrees, from, choices)
                &&& choices.len() == self.nodes.len()
                &&& to == from.after_choices(degrees, choices)
                &&& exists|i: int| 0 <= i < choices.len() && (#[trigger] choices[i]) is Some
            }
    }

    /// Optimization in turn never lowers modularity, and raises it if it changes anything.
    pub proof fn law_sweeps_raise(self, degrees: Seq<Binary32>, states: Seq<Progress>)
        requires
            self.wf(),
            self.nodes.len() <= usize::MAX,
            states.len() > 0,
            self.assigns(states[0].labels),
            forall|i: int, j: int|
                0 <= i && j == i + 1 && j < states.len() ==> self.swept_exactly(
                    degrees,
                    #[trigger] states[i],
                    #[trigger] states[j],
                ),
        ensures
            self.assigns(states.last().labels),
            self.exact_pairs(states.last().labels) >= self.exact_pairs(states[0].labels),
            states.last().labels != states[0].labels ==> self.exact_pairs(states.last().labels)
                > self.exact_pairs(states[0].labels),
        decreases states.len(),
    {
        if states.len() > 1 {
            let fewer = states.drop_last();
            assert forall|i: int, j: int|
                0 <= i && j == i + 1 && j < fewer.len() implies self.swept_exactly(
                degrees,
                #[trigger] fewer[i],
                #[trigger] fewer[j],
            ) by {
                assert(self.swept_exactly(degrees, states[i], states[j]));
            }
            self.law_sweeps_raise(degrees, fewer);
            let from = states[states.len() - 2];
            let to = states[states.len() - 1];
            assert(self.swept_exactly(degrees, from, to));
            let choices = choose|choices: Seq<Option<LocalMove>>|
                {
                    &&& #[trigger] self.in_turn(degrees, from, choices)
                    &&& self.turns_exact(degrees, from, choices)
                    &&& choices.len() == self.nodes.len()
                    &&& to == from.after_choices(degrees, choices)
                    &&& exists|i: int| 0 <= i < choices.len() && (#[trigger] choices[i]) is Some
                };
            self.law_turns_raise(degrees, from, choices);
        }
    }

    /// Optimization in turn can come from `from` to `at`: by sweeps, and by the choices of
    /// the first nodes in one more.
    pub open spec fn comes_to(self, degrees: Seq<Binary32>, from: Progress, at: Progress) -> bool {
        exists|states: Seq<Progress>, choices: Seq<Option<LocalMove>>|
            {
                &&& #[trigger] self.sweeps(degrees, states)
                &&& #[trigger] self.in_turn(degrees, states.last(), choices)
                &&& states.len() > 0
                &&& states[0] == from
                &&& choices.len() <= self.nodes.len()
                &&& at == states.last().after_choices(degrees, choices)
            }
    }

    /// Wherever optimization in turn can come to from `from`, nodes decide as without
    /// rounding.
    pub open spec fn unrounded(self, degrees: Seq<Binary32>, from: Progress) -> bool {
        forall|at: Progress, node: usize|
            node < self.nodes.len() && #[trigger] self.comes_to(degrees, from, at)
                ==> #[trigger] self.decides_exactly(degrees, at, node)
    }

    /// What holds of the choices of nodes in turn holds of the first of them.
    pub(crate) proof fn lemma_first_turns(
        self,
        degrees: Seq<Binary32>,
        from: Progress,
        choices: Seq<Option<LocalMove>>,
        k: int,
    )
        requires
            self.in_turn(degrees, from, choices),
            0 <= k <= choices.len(),
        ensures
            self.in_turn(degrees, from, choices.take(k)),
    {
        let first = choices.take(k);
        assert forall|i: int| 0 <= i < first.len() implies self.chooses(
            degrees,
            #[trigger] from.after_choices(degrees, first.take(i)),
            i as usize,
            first[i],
        ) by {
            assert(first.take(i) =~= choices.take(i));
            let _ = from.after_choices(degrees, choices.take(i));
        }
    }

    /// Where nothing is decided by rounding, optimization in turn never lowers modularity,
    /// raises it if it changes anything, and ends in a local optimum, unless the count
    /// of sweeps has run out.
    pub proof fn law_optimization_raises(
        self,
        degrees: Seq<Binary32>,
        from: Progress,
        to: Progress,
    )
        requires
            self.wf(),
            self.nodes.len() <= usize::MAX,
            self.assigns(from.labels),
            self.optimized_in_turn(degrees, from, to),
            self.unrounded(degrees, from),
        ensures
            self.exact_pairs(to.labels) >= self.exact_pairs(from.labels),
            to.labels != from.labels ==> self.exact_pairs(to.labels) > self.exact_pairs(
                from.labels,
            ),
            self.settled(degrees, to) ==> forall|node: usize|
                node < self.nodes.len() ==> #[trigger] self.at_rest(to.labels, node),
    {
        let states = choose|states: Seq<Progress>|
            {
                &&& #[trigger] self.sweeps(degrees, states)
                &&& states.len() > 0
                &&& states[0] == from
                &&& states.last() == to
                &&& self.settled(degrees, to) || states.len() > u64::MAX
            };
        assert forall|i: int, j: int|
            0 <= i && j == i + 1 && j < states.len() implies self.swept_exactly(
            degrees,
            #[trigger] states[i],
            #[trigger] states[j],
        ) by {
            assert(self.swept(degrees, states[i], true, states[j]));
            let choices = choose|choices: Seq<Option<LocalMove>>|
                {
                    &&& #[trigger] self.in_turn(degrees, states[i], choices)
                    &&& choices.len() == self.nodes.len()
                    &&& states[j] == states[i].after_choices(degrees, choices)
                    &&& true == exists|k: int|
                        0 <= k < choices.len() && (#[trigger] choices[k]) is Some
                };
            let so_far = states.take(j);
            assert(self.sweeps(degrees, so_far)) by {
                assert forall|a: int, b: int|
                    0 <= a && b == a + 1 && b < so_far.len() implies self.swept(
                    degrees,
                    #[trigger] so_far[a],
                    true,
                    #[trigger] so_far[b],
                ) by {
                    assert(self.swept(degrees, states[a], true, states[b]));
                }
            }
            assert(so_far.last() == states[i]);
            assert forall|k: int| 0 <= k < choices.len() implies self.decides_exactly(
                degrees,
                #[trigger] states[i].after_choices(degrees, choices.take(k)),
                k as usize,
            ) by {
                self.lemma_first_turns(degrees, states[i], choices, k);
                let first = choices.take(k);
                assert(self.in_turn(degrees, so_far.last(), first));
                assert(self.comes_to(degrees, from, states[i].after_choices(degrees, first)));
            }
        }
        self.law_sweeps_raise(degrees, states);
        if self.settled(degrees, to) {
            let none: Seq<Option<LocalMove>> = Seq::empty();
            assert(self.in_turn(degrees, states.last(), none));
            assert(to == states.last().after_choices(degrees, none));
            assert(self.comes_to(degrees, from, to));
            assert forall|node: usize| node < self.nodes.len() implies #[trigger] self.at_rest(
                to.labels,
                node,
            ) by {
                assert(self.decides_exactly(degrees, to, node));
                self.law_settled_is_optimal(degrees, to, node);
            }
        }
    }

    /// More sweeps than are counted lead from one assignment to the other.
    pub open spec fn runs_out(
        self,
        start: Map<usize, CommunityId>,
        labels: Map<usize, CommunityId>,
    ) -> bool {
        exists|states: Seq<Progress>|
            {
                &&& #[trigger] self.sweeps(self.degrees(), states)
                &&& states.len() > u64::MAX
                &&& states[0].labels == start
                &&& states.last().labels == labels
            }
    }

    /// An optimization of few enough nodes to go in turn never lowers modularity, raises it
    /// if it changes anything, and ends in a local optimum, unless the count of sweeps has
    /// run out; where nothing is decided by rounding.
    pub proof fn law_optimized_is_optimal<O: ModularityOptimizer>(
        self,
        start: Map<usize, CommunityId>,
        before: O,
        labels: Map<usize, CommunityId>,
        after: O,
        judges: Seq<&mut O>,
    )
        requires
            self.wf(),
            self.nodes.len() <= usize::MAX,
            self.assigns(start),
            self.optimized(start, before, labels, after, judges),
            forall|threshold: usize| #[trigger]
                call_ensures(O::get_parallel_threshold, (&before,), threshold)
                    ==> self.nodes.len() <= threshold,
            forall|from: Progress|
                from.labels == start && #[trigger] from.starts(self.degrees()) ==> self.unrounded(
                    self.degrees(),
                    from,
                ),
        ensures
            self.exact_pairs(labels) >= self.exact_pairs(start),
            labels != start ==> self.exact_pairs(labels) > self.exact_pairs(start),
            self.runs_out(start, labels) || forall|node: usize|
                node < self.nodes.len() ==> #[trigger] self.at_rest(labels, node),
    {
        let (from, to, threshold) = choose|from: Progress, to: Progress, threshold: usize| #[trigger]
            self.optimized_within(from, to, threshold, judges) && from.labels == start && to.labels
                == labels && #[trigger] call_ensures(
                O::get_parallel_threshold,
                (&before,),
                threshold,
            ) && (judges.len() == 0 ==> after == before);
        let degrees = self.degrees();
        self.law_optimization_raises(degrees, from, to);
        let states = choose|states: Seq<Progress>|
            {
                &&& #[trigger] self.sweeps(degrees, states)
                &&& states.len() > 0
                &&& states[0] == from
                &&& states.last() == to
                &&& self.settled(degrees, to) || states.len() > u64::MAX
            };
        if states.len() > u64::MAX {
            assert(self.runs_out(start, labels));
        }
    }
}

} // verus!
