//! Optimization that needs no rounding.
//!
//! Where nothing that is computed on the way rounds, optimization in turn decides as in
//! exact arithmetic from the first sweep to the last, raises modularity, and ends in a
//! local optimum.

use crate::binary32::Binary32;
use crate::graph::GraphView;
use crate::modularity::LocalMove;
use crate::moves::{weight_or_zero, Progress};
use crate::optimize::sums;
use crate::optimizer::ModularityOptimizer;
use crate::sums::{only, sum_in};
use crate::tables::{enumerates, CommunityId};
use vstd::prelude::*;

verus! {

/// Adding up the weighted degrees by community, in the given order of nodes, needs no
/// rounding.
pub open spec fn sums_are_exact(
    degrees: Seq<Binary32>,
    labels: Map<usize, CommunityId>,
    order: Seq<usize>,
) -> bool {
    forall|i: int|
        0 <= i < order.len() ==> weight_or_zero(
            #[trigger] sums(degrees, labels, order.take(i)),
            labels[order[i]],
        ).sum_is_exact(degrees[order[i] as int])
}

/// One member less.
pub(crate) proof fn lemma_sum_without(n: int, part: Set<usize>, x: usize, f: spec_fn(int) -> int)
    requires
        part.contains(x),
        x < n <= usize::MAX,
    ensures
        sum_in(n, part, f) == sum_in(n, part.remove(x), f) + f(x as int),
{
    let rest = |a: int| only(part.remove(x).contains(a as usize), f(a));
    let one = |a: int| only(a == x, f(a));
    let whole = |a: int| only(part.contains(a as usize), f(a));
    let both = |a: int| rest(a) + one(a);
    crate::sums::lemma_plus(n, rest, one);
    crate::sums::lemma_one(n, x as int, one);
    assert forall|a: int| 0 <= a < n implies #[trigger] whole(a) == both(a) by {}
    crate::sums::lemma_same(n, whole, both);
}

impl<N, E> GraphView<N, E> {
    /// The weighted degrees and the total weight were added up without rounding.
    pub open spec fn measures_exactly(self) -> bool {
        &&& self.balanced()
        &&& forall|a: usize| a < self.nodes.len() ==> #[trigger] self.degree_is_exact(a)
    }

    /// The exact degree of `a`, if it is in community `c`.
    spec fn degree_in(self, labels: Map<usize, CommunityId>, c: CommunityId, a: int) -> int {
        only(labels[a as usize] == c, self.exact_degree(a as usize))
    }

    proof fn lemma_sum_as_sum(self, labels: Map<usize, CommunityId>, c: CommunityId, b: int)
        requires
            b <= usize::MAX,
        ensures
            self.exact_sum_below(labels, c, b) == crate::sums::sum(
                b,
                |a: int| self.degree_in(labels, c, a),
            ),
        decreases b,
    {
        if 0 < b {
            self.lemma_sum_as_sum(labels, c, b - 1);
        }
    }

    proof fn lemma_sums_exact(
        self,
        labels: Map<usize, CommunityId>,
        order: Seq<usize>,
        part: Set<usize>,
        c: CommunityId,
    )
        requires
            self.nodes.len() <= usize::MAX,
            self.measures_exactly(),
            enumerates(order, part),
            forall|node: usize| #[trigger] part.contains(node) ==> node < self.nodes.len(),
            sums_are_exact(self.degrees(), labels, order),
        ensures
            weight_or_zero(sums(self.degrees(), labels, order), c).amount() == sum_in(
                self.nodes.len() as int,
                part,
                |a: int| self.degree_in(labels, c, a),
            ),
        decreases order.len(),
    {
        let n = self.nodes.len() as int;
        let degrees = self.degrees();
        let f = |a: int| self.degree_in(labels, c, a);
        if order.len() == 0 {
            crate::binary32::lemma_zero_amount();
            let members = |a: int| only(part.contains(a as usize), f(a));
            assert forall|a: int| 0 <= a < n implies #[trigger] members(a) == 0 by {
                if part.contains(a as usize) {
                    assert(order.to_set().contains(a as usize));
                }
            }
            crate::sums::lemma_zero(n, members);
        } else {
            let last = order.last();
            let fewer = order.drop_last();
            let rest = part.remove(last);
            assert(order.to_set().contains(order[order.len() - 1]));
            assert forall|node: usize| fewer.to_set().contains(node) == rest.contains(node) by {
                if fewer.contains(node) {
                    let i = choose|i: int| 0 <= i < fewer.len() && fewer[i] == node;
                    assert(order[i] == node);
                    assert(order.to_set().contains(node));
                    assert(order[i] != order[order.len() - 1]);
                }
                if rest.contains(node) {
                    assert(order.to_set().contains(node));
                    let i = choose|i: int| 0 <= i < order.len() && order[i] == node;
                    assert(fewer[i] == node);
                }
            }
            assert(fewer.to_set() =~= rest);
            assert(fewer.no_duplicates());
            assert(sums_are_exact(degrees, labels, fewer)) by {
                assert forall|i: int| 0 <= i < fewer.len() implies weight_or_zero(
                    #[trigger] sums(degrees, labels, fewer.take(i)),
                    labels[fewer[i]],
                ).sum_is_exact(degrees[fewer[i] as int]) by {
                    assert(fewer.take(i) =~= order.take(i));
                    let _ = sums(degrees, labels, order.take(i));
                }
            }
            self.lemma_sums_exact(labels, fewer, rest, c);
            assert(part.contains(last));
            lemma_sum_without(n, part, last, f);
            assert(order.take(order.len() - 1) =~= fewer);
            let _ = sums(degrees, labels, order.take(order.len() - 1));
            assert(self.degree_is_exact(last));
            self.law_degree_is_exact(last);
            assert(degrees[last as int] == self.weighted_degree(last));
        }
    }

    /// An optimization can start in this state, with sums that were added up without
    /// rounding.
    pub open spec fn starts_exactly(self, from: Progress) -> bool {
        exists|order: Seq<usize>|
            {
                &&& #[trigger] enumerates(order, from.labels.dom())
                &&& from.sigma == sums(self.degrees(), from.labels, order)
                &&& sums_are_exact(self.degrees(), from.labels, order)
            }
    }

    /// At the start the sums are those of the exact degrees, where adding them up needs no
    /// rounding.
    pub proof fn law_start_keeps_track(self, from: Progress)
        requires
            self.nodes.len() <= usize::MAX,
            self.measures_exactly(),
            self.assigns(from.labels),
            self.starts_exactly(from),
        ensures
            self.tracks(from),
    {
        let n = self.nodes.len() as int;
        let order = choose|order: Seq<usize>|
            {
                &&& #[trigger] enumerates(order, from.labels.dom())
                &&& from.sigma == sums(self.degrees(), from.labels, order)
                &&& sums_are_exact(self.degrees(), from.labels, order)
            };
        let all = from.labels.dom();
        assert forall|node: usize| #[trigger] all.contains(node) <==> node < n by {
            assert(from.labels.contains_key(node) <==> node < n);
        }
        assert forall|c: CommunityId| #[trigger]
            weight_or_zero(from.sigma, c).amount() == self.exact_sum(from.labels, c) by {
            self.lemma_sums_exact(from.labels, order, all, c);
            self.lemma_sum_as_sum(from.labels, c, n);
            let f = |a: int| self.degree_in(from.labels, c, a);
            let members = |a: int| only(all.contains(a as usize), f(a));
            assert forall|a: int| 0 <= a < n implies #[trigger] members(a) == f(a) by {
                assert(all.contains(a as usize));
            }
            crate::sums::lemma_same(n, members, f);
        }
        assert forall|node: usize| node < n implies from.sigma.contains_key(
            #[trigger] from.labels[node],
        ) by {
            assert(all.contains(node));
            assert(order.to_set().contains(node));
            let i = choose|i: int| 0 <= i < order.len() && order[i] == node;
            crate::optimize::lemma_sums_keys(self.degrees(), from.labels, order, i);
        }
    }

    /// Nothing that optimization in turn computes from `from` on needs rounding.
    pub open spec fn runs_exactly(self, from: Progress) -> bool {
        &&& self.starts_exactly(from)
        &&& forall|at: Progress, node: usize|
            node < self.nodes.len() && #[trigger] self.comes_to(self.degrees(), from, at)
                ==> #[trigger] self.computes_exactly(self.degrees(), at, node)
    }

    /// The sums stay those of the exact degrees through the choices of a sweep.
    proof fn lemma_turns_keep_track(
        self,
        from: Progress,
        states: Seq<Progress>,
        choices: Seq<Option<LocalMove>>,
    )
        requires
            self.nodes.len() <= usize::MAX,
            self.measures_exactly(),
            self.runs_exactly(from),
            self.sweeps(self.degrees(), states),
            states.len() > 0,
            states[0] == from,
            self.tracks(states.last()),
            self.in_turn(self.degrees(), states.last(), choices),
            choices.len() <= self.nodes.len(),
        ensures
            self.tracks(states.last().after_choices(self.degrees(), choices)),
        decreases choices.len(),
    {
        let degrees = self.degrees();
        if choices.len() > 0 {
            let last = choices.len() - 1;
            let node = last as usize;
            let fewer = choices.drop_last();
            assert(choices.take(last) =~= fewer);
            self.lemma_first_turns(degrees, states.last(), choices, last);
            self.lemma_turns_keep_track(from, states, fewer);
            let before = states.last().after_choices(degrees, fewer);
            assert(self.comes_to(degrees, from, before));
            assert(self.computes_exactly(degrees, before, node));
            let _ = states.last().after_choices(degrees, choices.take(last));
            assert(self.chooses(degrees, before, node, choices[last]));
            if let Some(local_move) = choices[last] {
                assert(self.degree_is_exact(node));
                self.law_degree_is_exact(node);
                assert(self.candidate(before, node, local_move.community));
                self.law_moves_keep_track(degrees, before, local_move);
            }
        }
    }

    /// The sums stay those of the exact degrees through all sweeps.
    proof fn lemma_sweeps_keep_track(self, from: Progress, states: Seq<Progress>)
        requires
            self.nodes.len() <= usize::MAX,
            self.measures_exactly(),
            self.runs_exactly(from),
            self.assigns(from.labels),
            self.sweeps(self.degrees(), states),
            states.len() > 0,
            states[0] == from,
        ensures
            self.tracks(states.last()),
        decreases states.len(),
    {
        let degrees = self.degrees();
        if states.len() == 1 {
            self.law_start_keeps_track(from);
        } else {
            let fewer = states.drop_last();
            assert(self.sweeps(degrees, fewer)) by {
                assert forall|i: int, j: int|
                    0 <= i && j == i + 1 && j < fewer.len() implies self.swept(
                    degrees,
                    #[trigger] fewer[i],
                    true,
                    #[trigger] fewer[j],
                ) by {
                    assert(self.swept(degrees, states[i], true, states[j]));
                }
            }
            self.lemma_sweeps_keep_track(from, fewer);
            let before = states[states.len() - 2];
            let after = states[states.len() - 1];
            assert(self.swept(degrees, before, true, after));
            let choices = choose|choices: Seq<Option<LocalMove>>|
                {
                    &&& #[trigger] self.in_turn(degrees, before, choices)
                    &&& choices.len() == self.nodes.len()
                    &&& after == before.after_choices(degrees, choices)
                    &&& true == exists|k: int|
                        0 <= k < choices.len() && (#[trigger] choices[k]) is Some
                };
            self.lemma_turns_keep_track(from, fewer, choices);
        }
    }

    /// Where nothing that is computed rounds, every decision on the way is that of exact
    /// arithmetic.
    pub proof fn law_exact_runs_are_unrounded(self, from: Progress)
        requires
            self.nodes.len() <= usize::MAX,
            self.measures_exactly(),
            self.assigns(from.labels),
            self.runs_exactly(from),
        ensures
            self.unrounded(self.degrees(), from),
    {
        let degrees = self.degrees();
        assert forall|at: Progress, node: usize|
            node < self.nodes.len() && #[trigger] self.comes_to(
                degrees,
                from,
                at,
            ) implies #[trigger] self.decides_exactly(degrees, at, node) by {
            let (states, choices) = choose|states: Seq<Progress>, choices: Seq<Option<LocalMove>>|
                {
                    &&& #[trigger] self.sweeps(degrees, states)
                    &&& #[trigger] self.in_turn(degrees, states.last(), choices)
                    &&& states.len() > 0
                    &&& states[0] == from
                    &&& choices.len() <= self.nodes.len()
                    &&& at == states.last().after_choices(degrees, choices)
                };
            self.lemma_sweeps_keep_track(from, states);
            self.lemma_turns_keep_track(from, states, choices);
            assert(self.computes_exactly(degrees, at, node));
            assert(self.degree_is_exact(node));
            self.law_degree_is_exact(node);
            self.law_exact_operations_decide(degrees, at, node);
        }
    }

    /// An optimization of few enough nodes to go in turn never lowers modularity, raises it
    /// if it changes anything, and ends in a local optimum, unless the count of sweeps has
    /// run out; where nothing that is computed rounds.
    pub proof fn law_exact_optimization_is_optimal<O: ModularityOptimizer>(
        self,
        start: Map<usize, CommunityId>,
        before: O,
        labels: Map<usize, CommunityId>,
        after: O,
        judges: Seq<&mut O>,
    )
        requires
            self.wf(),
            self.nodes.len() <= usize::MAX,
            self.assigns(start),
            self.optimized(start, before, labels, after, judges),
            forall|threshold: usize| #[trigger]
                call_ensures(O::get_parallel_threshold, (&before,), threshold)
                    ==> self.nodes.len() <= threshold,
            self.measures_exactly(),
            forall|from: Progress|
                from.labels == start && #[trigger] from.starts(self.degrees())
                    ==> self.runs_exactly(from),
        ensures
            self.exact_pairs(labels) >= self.exact_pairs(start),
            labels != start ==> self.exact_pairs(labels) > self.exact_pairs(start),
            self.runs_out(start, labels) || forall|node: usize|
                node < self.nodes.len() ==> #[trigger] self.at_rest(labels, node),
    {
        assert forall|from: Progress|
            from.labels == start && #[trigger] from.starts(self.degrees()) implies self.unrounded(
            self.degrees(),
            from,
        ) by {
            self.law_exact_runs_are_unrounded(from);
        }
        self.law_optimized_is_optimal(start, before, labels, after, judges);
    }
}

} // verus!
