//! The sums kept for communities: near the exact ones at the start, and what moves do to
//! them.

use crate::binary32::Binary32;
use crate::exact_runs::lemma_sum_without;
use crate::graph::GraphView;
use crate::modularity::LocalMove;
use crate::moves::{weight_or_zero, Progress};
use crate::optimize::sums;
use crate::rounding::{fits, lemma_fits_step, lemma_near_more, lemma_near_start, near, size};
use crate::sums::{only, sum, sum_in};
use crate::tables::{enumerates, CommunityId};
use vstd::prelude::*;

verus! {

/// The weighted degree of `a`, if it is in community `c`.
pub open spec fn share(
    degrees: Seq<Binary32>,
    labels: Map<usize, CommunityId>,
    c: CommunityId,
    a: int,
) -> int {
    only(labels[a as usize] == c, degrees[a].amount())
}

/// One node less in a list of nodes.
proof fn lemma_shorter(order: Seq<usize>, part: Set<usize>)
    requires
        enumerates(order, part),
        order.len() > 0,
    ensures
        enumerates(order.drop_last(), part.remove(order.last())),
        part.contains(order.last()),
{
    let last = order.last();
    let fewer = order.drop_last();
    let rest = part.remove(last);
    assert(order.to_set().contains(order[order.len() - 1]));
    assert forall|node: usize| fewer.to_set().contains(node) == rest.contains(node) by {
        if fewer.contains(node) {
            let i = choose|i: int| 0 <= i < fewer.len() && fewer[i] == node;
            assert(order[i] == node);
            assert(order.to_set().contains(node));
            assert(order[i] != order[order.len() - 1]);
        }
        if rest.contains(node) {
            assert(order.to_set().contains(node));
            let i = choose|i: int| 0 <= i < order.len() && order[i] == node;
            assert(fewer[i] == node);
        }
    }
    assert(fewer.to_set() =~= rest);
}

proof fn lemma_sums_near(
    n: int,
    degrees: Seq<Binary32>,
    labels: Map<usize, CommunityId>,
    order: Seq<usize>,
    part: Set<usize>,
    c: CommunityId,
)
    requires
        n <= usize::MAX,
        enumerates(order, part),
        forall|node: usize| #[trigger] part.contains(node) ==> node < n,
        weight_or_zero(sums(degrees, labels, order), c).finite(),
    ensures
        near(
            weight_or_zero(sums(degrees, labels, order), c).amount(),
            sum_in(n, part, |a: int| share(degrees, labels, c, a)),
            sum_in(n, part, |a: int| size(share(degrees, labels, c, a))),
            order.len(),
        ),
        size(sum_in(n, part, |a: int| share(degrees, labels, c, a))) <= sum_in(
            n,
            part,
            |a: int| size(share(degrees, labels, c, a)),
        ),
    decreases order.len(),
{
    let f = |a: int| share(degrees, labels, c, a);
    let g = |a: int| size(share(degrees, labels, c, a));
    if order.len() == 0 {
        crate::binary32::lemma_zero_amount();
        lemma_near_start(0, 0);
        let members = |a: int| only(part.contains(a as usize), f(a));
        let sizes = |a: int| only(part.contains(a as usize), g(a));
        assert forall|a: int| 0 <= a < n implies #[trigger] members(a) == 0 by {
            if part.contains(a as usize) {
                assert(order.to_set().contains(a as usize));
            }
        }
        assert forall|a: int| 0 <= a < n implies #[trigger] sizes(a) == 0 by {
            if part.contains(a as usize) {
                assert(order.to_set().contains(a as usize));
            }
        }
        crate::sums::lemma_zero(n, members);
        crate::sums::lemma_zero(n, sizes);
    } else {
        let last = order.last();
        let fewer = order.drop_last();
        let rest = weight_or_zero(sums(degrees, labels, fewer), c);
        lemma_shorter(order, part);
        lemma_sum_without(n, part, last, f);
        lemma_sum_without(n, part, last, g);
        let less = part.remove(last);
        let steps = fewer.len();
        if labels[last] == c {
            rest.lemma_finite_sum(degrees[last as int]);
            lemma_sums_near(n, degrees, labels, fewer, less, c);
            rest.lemma_near_sum(
                sum_in(n, less, f),
                sum_in(n, less, g),
                steps,
                degrees[last as int],
            );
        } else {
            assert(weight_or_zero(sums(degrees, labels, order), c) == rest);
            lemma_sums_near(n, degrees, labels, fewer, less, c);
            lemma_near_more(
                rest.amount(),
                sum_in(n, less, f),
                sum_in(n, less, g),
                steps,
                sum_in(n, less, g),
                steps + 1,
            );
        }
    }
}

proof fn lemma_sums_finite(
    n: int,
    degrees: Seq<Binary32>,
    labels: Map<usize, CommunityId>,
    order: Seq<usize>,
    part: Set<usize>,
    c: CommunityId,
    all: int,
    limit: nat,
)
    requires
        n <= usize::MAX,
        enumerates(order, part),
        forall|node: usize| #[trigger] part.contains(node) ==> node < n,
        forall|a: int| 0 <= a < n ==> (#[trigger] degrees[a]).finite(),
        sum_in(n, part, |a: int| size(share(degrees, labels, c, a))) <= all,
        order.len() <= limit,
        fits(all, limit),
    ensures
        weight_or_zero(sums(degrees, labels, order), c).finite(),
    decreases order.len(),
{
    if order.len() > 0 {
        let f = |a: int| share(degrees, labels, c, a);
        let g = |a: int| size(share(degrees, labels, c, a));
        let last = order.last();
        let fewer = order.drop_last();
        let rest = weight_or_zero(sums(degrees, labels, fewer), c);
        lemma_shorter(order, part);
        lemma_sum_without(n, part, last, g);
        let less = part.remove(last);
        lemma_sums_finite(n, degrees, labels, fewer, less, c, all, limit);
        if labels[last] == c {
            lemma_sums_near(n, degrees, labels, fewer, less, c);
            assert(degrees[last as int].finite());
            lemma_fits_step(
                rest.amount(),
                sum_in(n, less, f),
                sum_in(n, less, g),
                fewer.len(),
                degrees[last as int].amount(),
                all,
                limit,
            );
            rest.law_sum_is_finite(degrees[last as int]);
        } else {
            assert(weight_or_zero(sums(degrees, labels, order), c) == rest);
        }
    }
}

impl<N, E> GraphView<N, E> {
    /// The nodes in any order are as many as there are, and a sum over them all is a sum.
    proof fn lemma_all_nodes(
        self,
        labels: Map<usize, CommunityId>,
        order: Seq<usize>,
        f: spec_fn(int) -> int,
    )
        requires
            self.nodes.len() <= usize::MAX,
            self.assigns(labels),
            enumerates(order, labels.dom()),
        ensures
            order.len() == self.nodes.len(),
            sum_in(self.nodes.len() as int, labels.dom(), f) == sum(self.nodes.len() as int, f),
            forall|node: usize| #[trigger]
                labels.dom().contains(node) ==> node < self.nodes.len(),
    {
        let n = self.nodes.len() as int;
        self.lemma_assigns(labels);
        order.unique_seq_to_set();
        let members = |a: int| only(labels.dom().contains(a as usize), f(a));
        assert forall|a: int| 0 <= a < n implies #[trigger] members(a) == f(a) by {
            assert(labels.contains_key(a as usize));
        }
        crate::sums::lemma_same(n, members, f);
    }

    /// At the start of an optimization the sum kept for a community is near the sum of the
    /// weighted degrees of its nodes.
    pub proof fn law_start_sums_are_near(
        self,
        degrees: Seq<Binary32>,
        from: Progress,
        c: CommunityId,
    )
        requires
            self.nodes.len() <= usize::MAX,
            self.assigns(from.labels),
            from.starts(degrees),
            weight_or_zero(from.sigma, c).finite(),
        ensures
            near(
                weight_or_zero(from.sigma, c).amount(),
                sum(self.nodes.len() as int, |a: int| share(degrees, from.labels, c, a)),
                sum(self.nodes.len() as int, |a: int| size(share(degrees, from.labels, c, a))),
                self.nodes.len(),
            ),
    {
        let n = self.nodes.len() as int;
        let order = choose|order: Seq<usize>| #[trigger]
            enumerates(order, from.labels.dom()) && from.sigma == sums(
                degrees,
                from.labels,
                order,
            );
        let f = |a: int| share(degrees, from.labels, c, a);
        let g = |a: int| size(share(degrees, from.labels, c, a));
        self.lemma_all_nodes(from.labels, order, f);
        self.lemma_all_nodes(from.labels, order, g);
        lemma_sums_near(n, degrees, from.labels, order, from.labels.dom(), c);
    }

    /// At the start of an optimization the sum kept for a community is finite.
    pub proof fn law_start_sums_are_finite(
        self,
        degrees: Seq<Binary32>,
        from: Progress,
        c: CommunityId,
    )
        requires
            self.nodes.len() <= usize::MAX,
            self.assigns(from.labels),
            from.starts(degrees),
            forall|a: int| 0 <= a < self.nodes.len() ==> (#[trigger] degrees[a]).finite(),
            fits(
                sum(self.nodes.len() as int, |a: int| size(share(degrees, from.labels, c, a))),
                self.nodes.len(),
            ),
        ensures
            weight_or_zero(from.sigma, c).finite(),
    {
        let n = self.nodes.len() as int;
        let order = choose|order: Seq<usize>| #[trigger]
            enumerates(order, from.labels.dom()) && from.sigma == sums(
                degrees,
                from.labels,
                order,
            );
        let g = |a: int| size(share(degrees, from.labels, c, a));
        self.lemma_all_nodes(from.labels, order, g);
        lemma_sums_finite(
            n,
            degrees,
            from.labels,
            order,
            from.labels.dom(),
            c,
            sum(n, g),
            self.nodes.len(),
        );
    }
}

impl Progress {
    /// A move gives its node the new label and leaves all others. The sum of the community
    /// that it leaves loses its weighted degree, the sum of the one that it joins gains it,
    /// and all others stay.
    pub proof fn law_moves_carry_the_degree(
        self,
        degrees: Seq<Binary32>,
        local_move: LocalMove,
        node: usize,
        c: CommunityId,
    )
        requires
            self.labels.contains_key(local_move.node),
            self.sigma.contains_key(self.labels[local_move.node]),
            local_move.community != self.labels[local_move.node],
        ensures
            self.after(degrees, local_move).labels[local_move.node] == local_move.community,
            node != local_move.node ==> self.after(degrees, local_move).labels[node]
                == self.labels[node],
            self.after(degrees, local_move).labels.contains_key(node) == self.labels.contains_key(
                node,
            ),
            c == self.labels[local_move.node] ==> weight_or_zero(
                self.after(degrees, local_move).sigma,
                c,
            ) == weight_or_zero(self.sigma, c).subtracted(degrees[local_move.node as int]),
            c == local_move.community ==> weight_or_zero(self.after(degrees, local_move).sigma, c)
                == weight_or_zero(self.sigma, c).added(degrees[local_move.node as int]),
            c != self.labels[local_move.node] && c != local_move.community ==> weight_or_zero(
                self.after(degrees, local_move).sigma,
                c,
            ) == weight_or_zero(self.sigma, c),
    {
        assert(self.after(degrees, local_move).labels.contains_key(node)
            == self.labels.contains_key(node));
    }
}

} // verus!
