//! Walks through communities come to every node, and no node is lost or doubled as
//! communities are made of communities.

use crate::community::Community;
use vstd::prelude::*;

verus! {

impl Community {
    /// How often the community reports `node`: once for each set of nodes in it that
    /// holds the node.
    pub open spec fn reports(self, node: usize) -> nat
        decreases self,
    {
        match self {
            Community::L1Community(nodes) => if nodes@.contains(node) {
                1nat
            } else {
                0nat
            },
            Community::LNCommunity(communities) => reports(communities@, node),
        }
    }
}

/// How often some communities together report `node`.
pub open spec fn reports(communities: Seq<Community>, node: usize) -> nat
    decreases communities,
{
    if communities.len() == 0 {
        0
    } else {
        reports(communities.drop_last(), node) + communities.last().reports(node)
    }
}

/// A walk through a community comes to each node as often as the community reports it.
pub proof fn law_walks_report(community: Community, order: Seq<usize>)
    requires
        community.walks(order),
    ensures
        forall|node: usize| #[trigger]
            order.to_multiset().count(node) == community.reports(node),
    decreases community,
{
    match community {
        Community::L1Community(nodes) => {
            order.lemma_multiset_has_no_duplicates();
            order.to_multiset_ensures();
            assert forall|node: usize| #[trigger]
                order.to_multiset().count(node) == community.reports(node) by {
                assert(order.to_set().contains(node) == nodes@.contains(node));
                assert(order.contains(node) == nodes@.contains(node));
                if order.contains(node) {
                    assert(order.to_multiset().contains(node));
                }
            }
        },
        Community::LNCommunity(communities) => {
            assert(decreases_to!(community => community->LNCommunity_0));
            assert(decreases_to!(community->LNCommunity_0 => communities@));
            law_walks_report_all(communities@, order);
        },
    }
}

/// A walk through communities comes to each node as often as they report it.
pub proof fn law_walks_report_all(communities: Seq<Community>, order: Seq<usize>)
    requires
        crate::community::walks(communities, order),
    ensures
        forall|node: usize| #[trigger]
            order.to_multiset().count(node) == reports(communities, node),
    decreases communities,
{
    if communities.len() == 0 {
        order.to_multiset_ensures();
        assert forall|node: usize| #[trigger]
            order.to_multiset().count(node) == reports(communities, node) by {
            assert(!order.contains(node));
        }
    } else {
        let k = choose|k: int|
            {
                &&& 0 <= k <= order.len()
                &&& crate::community::walks(communities.drop_last(), #[trigger] order.take(k))
                &&& communities.last().walks(order.skip(k))
            };
        law_walks_report_all(communities.drop_last(), order.take(k));
        law_walks_report(communities.last(), order.skip(k));
        assert(order =~= order.take(k) + order.skip(k));
        vstd::seq_lib::lemma_multiset_commutative(order.take(k), order.skip(k));
        assert forall|node: usize| #[trigger]
            order.to_multiset().count(node) == reports(communities, node) by {
            assert(order.take(k).to_multiset().count(node) == reports(
                communities.drop_last(),
                node,
            ));
            assert(order.skip(k).to_multiset().count(node) == communities.last().reports(node));
        }
    }
}

/// A community reports the nodes that are in it, and no others.
pub proof fn law_reported_nodes(community: Community, node: usize)
    ensures
        community.reports(node) > 0 <==> community.nodes().contains(node),
    decreases community,
{
    if let Community::LNCommunity(communities) = community {
        assert(decreases_to!(community => community->LNCommunity_0));
        assert(decreases_to!(community->LNCommunity_0 => communities@));
        lemma_reported_nodes(communities@, node);
    }
}

proof fn lemma_reported_nodes(communities: Seq<Community>, node: usize)
    ensures
        reports(communities, node) > 0 <==> exists|i: int|
            0 <= i < communities.len() && (#[trigger] communities[i]).nodes().contains(node),
    decreases communities,
{
    if communities.len() > 0 {
        let fewer = communities.drop_last();
        let last = communities.len() - 1;
        lemma_reported_nodes(fewer, node);
        law_reported_nodes(communities.last(), node);
        if reports(communities, node) > 0 {
            if reports(fewer, node) > 0 {
                let i = choose|i: int|
                    0 <= i < fewer.len() && (#[trigger] fewer[i]).nodes().contains(node);
                assert(communities[i].nodes().contains(node));
            } else {
                assert(communities[last].nodes().contains(node));
            }
        }
        if exists|i: int|
            0 <= i < communities.len() && (#[trigger] communities[i]).nodes().contains(node) {
            let i = choose|i: int|
                0 <= i < communities.len() && (#[trigger] communities[i]).nodes().contains(node);
            if i < last {
                assert(fewer[i].nodes().contains(node));
            }
        }
    }
}

/// A walk through a community comes to the nodes that are in it, and to no others.
pub proof fn law_walks_meet(community: Community, order: Seq<usize>, node: usize)
    requires
        community.walks(order),
    ensures
        order.contains(node) <==> community.nodes().contains(node),
{
    law_walks_report(community, order);
    law_reported_nodes(community, node);
    order.to_multiset_ensures();
    assert(order.to_multiset().count(node) == community.reports(node));
}

/// How often those of the first `m` communities report `node` whose numbers are in
/// `part`.
spec fn reports_in(nodes: Seq<Community>, part: Set<usize>, m: int, node: usize) -> nat
    decreases m,
{
    if m <= 0 {
        0
    } else {
        reports_in(nodes, part, m - 1, node) + if part.contains((m - 1) as usize) {
            nodes[m - 1].reports(node)
        } else {
            0
        }
    }
}

/// The same over the first `k` sets of numbers.
spec fn reports_over(
    nodes: Seq<Community>,
    parts: Seq<Set<usize>>,
    k: int,
    m: int,
    node: usize,
) -> nat
    decreases k,
{
    if k <= 0 {
        0
    } else {
        reports_over(nodes, parts, k - 1, m, node) + reports_in(nodes, parts[k - 1], m, node)
    }
}

/// One number less is one community less.
proof fn lemma_remove(nodes: Seq<Community>, part: Set<usize>, c: usize, m: int, node: usize)
    requires
        part.contains(c),
        0 <= m <= usize::MAX,
    ensures
        reports_in(nodes, part, m, node) == reports_in(nodes, part.remove(c), m, node) + if c < m {
            nodes[c as int].reports(node)
        } else {
            0
        },
    decreases m,
{
    if 0 < m {
        lemma_remove(nodes, part, c, m - 1, node);
    }
}

/// No numbers, no reports.
proof fn lemma_none(nodes: Seq<Community>, m: int, node: usize)
    ensures
        reports_in(nodes, Set::empty(), m, node) == 0,
    decreases m,
{
    if 0 < m {
        lemma_none(nodes, m - 1, node);
    }
}

/// Listing the numbers in any order makes no difference.
proof fn lemma_listed(
    nodes: Seq<Community>,
    order: Seq<usize>,
    part: Set<usize>,
    node: usize,
)
    requires
        crate::tables::enumerates(order, part),
        nodes.len() <= usize::MAX,
        forall|c: usize| part.contains(c) ==> c < nodes.len(),
    ensures
        reports(order.map_values(|c: usize| nodes[c as int]), node) == reports_in(
            nodes,
            part,
            nodes.len() as int,
            node,
        ),
    decreases order.len(),
{
    let listed = order.map_values(|c: usize| nodes[c as int]);
    if order.len() == 0 {
        assert(part =~= Set::<usize>::empty());
        lemma_none(nodes, nodes.len() as int, node);
    } else {
        let last = order.last();
        let fewer = order.drop_last();
        let rest = part.remove(last);
        assert(order.to_set().contains(order[order.len() - 1]));
        assert forall|c: usize| fewer.to_set().contains(c) == rest.contains(c) by {
            if fewer.contains(c) {
                let i = choose|i: int| 0 <= i < fewer.len() && fewer[i] == c;
                assert(order[i] == c);
                assert(order.to_set().contains(c));
                assert(order[i] != order[order.len() - 1]);
            }
            if rest.contains(c) {
                assert(order.to_set().contains(c));
                let i = choose|i: int| 0 <= i < order.len() && order[i] == c;
                assert(fewer[i] == c);
            }
        }
        assert(fewer.to_set() =~= rest);
        assert(fewer.no_duplicates());
        lemma_listed(nodes, fewer, rest, node);
        lemma_remove(nodes, part, last, nodes.len() as int, node);
        assert(listed.drop_last() =~= fewer.map_values(|c: usize| nodes[c as int]));
        assert(listed.last() == nodes[last as int]);
    }
}

/// Some of the first `k` sets holds the number `c`.
spec fn held(parts: Seq<Set<usize>>, k: int, c: usize) -> bool {
    exists|i: int| 0 <= i < k && (#[trigger] parts[i]).contains(c)
}

/// One more community counts once if one of the disjoint sets holds its number.
proof fn lemma_one_more(
    nodes: Seq<Community>,
    parts: Seq<Set<usize>>,
    k: int,
    m: int,
    node: usize,
)
    requires
        0 <= k <= parts.len(),
        0 < m <= usize::MAX,
        forall|i: int, j: int|
            0 <= i < parts.len() && 0 <= j < parts.len() && i != j ==> (
            #[trigger] parts[i]).disjoint(#[trigger] parts[j]),
    ensures
        reports_over(nodes, parts, k, m, node) == reports_over(nodes, parts, k, m - 1, node)
            + if held(parts, k, (m - 1) as usize) {
            nodes[m - 1].reports(node)
        } else {
            0
        },
    decreases k,
{
    let c = (m - 1) as usize;
    if 0 < k {
        lemma_one_more(nodes, parts, k - 1, m, node);
        if parts[k - 1].contains(c) {
            assert(held(parts, k, c));
            if held(parts, k - 1, c) {
                let i = choose|i: int| 0 <= i < k - 1 && (#[trigger] parts[i]).contains(c);
                assert(parts[i].disjoint(parts[k - 1]));
            }
        } else if held(parts, k, c) {
            let i = choose|i: int| 0 <= i < k && (#[trigger] parts[i]).contains(c);
            assert(0 <= i < k - 1);
            assert(held(parts, k - 1, c));
        } else {
            if held(parts, k - 1, c) {
                let i = choose|i: int| 0 <= i < k - 1 && (#[trigger] parts[i]).contains(c);
                assert(held(parts, k, c));
            }
        }
    }
}

/// Over the sets of a partition, each of the first `m` communities counts once.
proof fn lemma_all(nodes: Seq<Community>, parts: Seq<Set<usize>>, m: int, node: usize)
    requires
        crate::refine::partitions(parts, crate::refine::numbers(nodes.len())),
        0 <= m <= nodes.len() <= usize::MAX,
    ensures
        reports_over(nodes, parts, parts.len() as int, m, node) == reports(nodes.take(m), node),
    decreases m,
{
    if 0 < m {
        let c = (m - 1) as usize;
        lemma_all(nodes, parts, m - 1, node);
        lemma_one_more(nodes, parts, parts.len() as int, m, node);
        assert(crate::refine::numbers(nodes.len()).contains(c));
        assert(held(parts, parts.len() as int, c));
        assert(nodes.take(m).drop_last() =~= nodes.take(m - 1));
    } else {
        lemma_nothing(nodes, parts, parts.len() as int, node);
        assert(nodes.take(0) =~= Seq::<Community>::empty());
    }
}

proof fn lemma_nothing(nodes: Seq<Community>, parts: Seq<Set<usize>>, k: int, node: usize)
    ensures
        reports_over(nodes, parts, k, 0, node) == 0,
    decreases k,
{
    if 0 < k {
        lemma_nothing(nodes, parts, k - 1, node);
    }
}

/// What the first `k` communities of the next level report.
proof fn lemma_made(
    nodes: Seq<Community>,
    parts: Seq<Set<usize>>,
    made: Seq<Community>,
    k: int,
    node: usize,
)
    requires
        crate::refine::partitions(parts, crate::refine::numbers(nodes.len())),
        nodes.len() <= usize::MAX,
        crate::compress::next_level(nodes, parts, made),
        0 <= k <= made.len(),
    ensures
        reports(made.take(k), node) == reports_over(nodes, parts, k, nodes.len() as int, node),
    decreases k,
{
    if 0 < k {
        lemma_made(nodes, parts, made, k - 1, node);
        assert(made.take(k).drop_last() =~= made.take(k - 1));
        let part = parts[k - 1];
        let community = made[k - 1];
        assert(crate::compress::merges(nodes, part, community));
        let order = choose|order: Seq<usize>| #[trigger]
            crate::tables::enumerates(order, part) && crate::compress::combines(
                nodes,
                order,
                community,
            );
        assert forall|c: usize| part.contains(c) implies c < nodes.len() by {
            assert(part.subset_of(crate::refine::numbers(nodes.len())));
            assert(crate::refine::numbers(nodes.len()).contains(c));
        }
        lemma_listed(nodes, order, part, node);
        let listed = order.map_values(|c: usize| nodes[c as int]);
        if order.len() == 1 {
            assert(listed.drop_last() =~= Seq::<Community>::empty());
            assert(listed.last() == community);
            assert(reports(listed.drop_last(), node) == 0);
            assert(reports(listed, node) == community.reports(node));
        } else {
            assert(community->LNCommunity_0@ =~= listed);
            assert(community.reports(node) == reports(listed, node)) by {
                reveal_with_fuel(Community::reports, 2);
                reveal_with_fuel(reports, 2);
            }
        }
        assert(made.take(k).last() == community);
        assert(reports(made.take(k), node) == reports(made.take(k - 1), node) + community.reports(
            node,
        ));
    } else {
        assert(made.take(0) =~= Seq::<Community>::empty());
    }
}

/// Communities made of communities report each node as often as these did.
pub proof fn law_reports_are_kept(
    nodes: Seq<Community>,
    parts: Seq<Set<usize>>,
    made: Seq<Community>,
    node: usize,
)
    requires
        crate::refine::partitions(parts, crate::refine::numbers(nodes.len())),
        nodes.len() <= usize::MAX,
        crate::compress::next_level(nodes, parts, made),
    ensures
        reports(made, node) == reports(nodes, node),
{
    lemma_made(nodes, parts, made, made.len() as int, node);
    lemma_all(nodes, parts, nodes.len() as int, node);
    assert(made.take(made.len() as int) =~= made);
    assert(nodes.take(nodes.len() as int) =~= nodes);
}

/// Communities made of communities lose no node and double none: a walk through them comes
/// to the same nodes, each as often, as a walk through those that they are made of.
pub proof fn law_no_node_is_lost(
    nodes: Seq<Community>,
    parts: Seq<Set<usize>>,
    made: Seq<Community>,
    before: Seq<usize>,
    after: Seq<usize>,
)
    requires
        crate::refine::partitions(parts, crate::refine::numbers(nodes.len())),
        nodes.len() <= usize::MAX,
        crate::compress::next_level(nodes, parts, made),
        crate::community::walks(nodes, before),
        crate::community::walks(made, after),
    ensures
        after.to_multiset() == before.to_multiset(),
{
    law_walks_report_all(nodes, before);
    law_walks_report_all(made, after);
    assert forall|node: usize| after.to_multiset().count(node) == #[trigger] before.to_multiset().count(
        node,
    ) by {
        law_reports_are_kept(nodes, parts, made, node);
        assert(after.to_multiset().count(node) == reports(made, node));
    }
    assert(after.to_multiset() =~= before.to_multiset());
}

} // verus!
