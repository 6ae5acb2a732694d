//! Communities of nodes, and communities of communities.

use crate::tables::{set_members, NodeSet};
use vstd::prelude::*;

verus! {

/// A community: a set of nodes, or what several communities make up together.
#[derive(Debug)]
pub enum Community {
    L1Community(NodeSet),
    LNCommunity(Vec<Community>),
}

impl Community {
    /// The nodes of the community.
    pub open spec fn nodes(self) -> Set<usize>
        decreases self,
    {
        match self {
            Community::L1Community(nodes) => nodes@,
            Community::LNCommunity(communities) => Set::new(
                |node: usize|
                    exists|i: int|
                        0 <= i < communities@.len() && (#[trigger] communities@[i]).nodes().contains(
                            node,
                        ),
            ),
        }
    }

    /// No node is in two of the communities that a community is made up of.
    pub open spec fn distinct(self) -> bool
        decreases self,
    {
        match self {
            Community::L1Community(_) => true,
            Community::LNCommunity(communities) => {
                &&& forall|i: int|
                    0 <= i < communities@.len() ==> (#[trigger] communities@[i]).distinct()
                &&& forall|i: int, j: int|
                    0 <= i < j < communities@.len() ==> (#[trigger] communities@[i]).nodes().disjoint(
                        (#[trigger] communities@[j]).nodes(),
                    )
            },
        }
    }

    /// `order` is a walk through the community: through its nodes in some order, or through
    /// the communities that it is made up of, one after the other.
    pub open spec fn walks(self, order: Seq<usize>) -> bool
        decreases self,
    {
        match self {
            Community::L1Community(nodes) => crate::tables::enumerates(order, nodes@),
            Community::LNCommunity(communities) => walks(communities@, order),
        }
    }
}

/// `order` is a walk through `communities`, one after the other.
pub open spec fn walks(communities: Seq<Community>, order: Seq<usize>) -> bool
    decreases communities,
{
    if communities.len() == 0 {
        order.len() == 0
    } else {
        exists|k: int|
            {
                &&& 0 <= k <= order.len()
                &&& walks(communities.drop_last(), #[trigger] order.take(k))
                &&& communities.last().walks(order.skip(k))
            }
    }
}

/// A walk through some communities goes on through one more.
proof fn lemma_walk_on(communities: Seq<Community>, i: int, order: Seq<usize>, leg: Seq<usize>)
    requires
        0 <= i < communities.len(),
        walks(communities.take(i), order),
        communities[i].walks(leg),
    ensures
        walks(communities.take(i + 1), order + leg),
{
    let more = communities.take(i + 1);
    let whole = order + leg;
    assert(more.drop_last() =~= communities.take(i));
    assert(whole.take(order.len() as int) =~= order);
    assert(whole.skip(order.len() as int) =~= leg);
}

/// What the nodes of a community are shown to, one after the other.
pub trait NodeVisitor {
    /// The nodes that were shown to it, in order.
    spec fn visited(&self) -> Seq<usize>;

    /// `node` may be shown to it.
    spec fn admits(&self, node: usize) -> bool;

    /// What is to hold of a node that was shown to it.
    spec fn answers(&self, node: usize) -> bool;

    /// Shows it one node.
    fn visit(&mut self, node: usize)
        requires
            old(self).admits(node),
        ensures
            final(self).visited() == old(self).visited().push(node),
            final(self).answers(node),
            forall|other: usize| #[trigger]
                final(self).admits(other) == old(self).admits(other),
            forall|other: usize| #[trigger]
                final(self).answers(other) == old(self).answers(other),
    ;
}

impl NodeVisitor for Vec<usize> {
    open spec fn visited(&self) -> Seq<usize> {
        self@
    }

    open spec fn admits(&self, node: usize) -> bool {
        true
    }

    open spec fn answers(&self, node: usize) -> bool {
        true
    }

    fn visit(&mut self, node: usize) {
        self.push(node);
    }
}

/// Calls a function with each node that it is shown. A call of a function leaves no trace that
/// a contract could speak of, so each call is noted here.
struct Caller<'a, F> {
    f: &'a F,
    calls: Ghost<Seq<usize>>,
}

impl<'a, F: Fn(usize)> NodeVisitor for Caller<'a, F> {
    closed spec fn visited(&self) -> Seq<usize> {
        self.calls@
    }

    closed spec fn admits(&self, node: usize) -> bool {
        self.f.requires((node,))
    }

    closed spec fn answers(&self, node: usize) -> bool {
        self.f.ensures((node,), ())
    }

    fn visit(&mut self, node: usize) {
        (self.f)(node);
        self.calls = Ghost(self.calls@.push(node));
    }
}

impl Community {
    /// Shows the nodes of the community to a visitor: one walk through the community, and
    /// nothing else.
    pub fn visit_nodes<V: NodeVisitor>(&self, visitor: &mut V)
        requires
            forall|node: usize| #[trigger]
                self.nodes().contains(node) ==> old(visitor).admits(node),
        ensures
            exists|order: Seq<usize>| #[trigger]
                self.walks(order) && final(visitor).visited() == old(visitor).visited() + order,
            forall|node: usize| #[trigger]
                self.nodes().contains(node) ==> final(visitor).answers(node),
            forall|node: usize| #[trigger]
                final(visitor).admits(node) == old(visitor).admits(node),
            forall|node: usize| #[trigger]
                final(visitor).answers(node) == old(visitor).answers(node),
        decreases self,
    {
        let ghost start = *visitor;
        let ghost mut order: Seq<usize> = Seq::empty();
        match self {
            Community::L1Community(nodes) => {
                let members: Vec<usize> = set_members(nodes);
                let mut i: usize = 0;
                while i < members.len()
                    invariant
                        *self == Community::L1Community(*nodes),
                        crate::tables::enumerates(members@, nodes@),
                        forall|node: usize| #[trigger]
                            self.nodes().contains(node) ==> start.admits(node),
                        i <= members.len(),
                        visitor.visited() == start.visited() + members@.take(i as int),
                        forall|j: int| 0 <= j < i ==> visitor.answers(#[trigger] members@[j]),
                        forall|node: usize| #[trigger]
                            visitor.admits(node) == start.admits(node),
                        forall|node: usize| #[trigger]
                            visitor.answers(node) == start.answers(node),
                    decreases members.len() - i,
                {
                    let node: usize = members[i];
                    let ghost before = *visitor;
                    assert(members@.to_set().contains(members@[i as int]));
                    assert(self.nodes().contains(node));
                    visitor.visit(node);
                    assert(members@.take(i + 1) =~= members@.take(i as int).push(node));
                    assert(visitor.visited() =~= start.visited() + members@.take(i + 1));
                    i = i + 1;
                }
                proof {
                    assert(members@.take(i as int) =~= members@);
                    order = members@;
                    assert forall|node: usize| #[trigger]
                        self.nodes().contains(node) implies visitor.answers(node) by {
                        assert(members@.to_set().contains(node));
                        let j = choose|j: int| 0 <= j < members@.len() && members@[j] == node;
                        assert(visitor.answers(members@[j]));
                    }
                }
            },
            Community::LNCommunity(communities) => {
                let mut i: usize = 0;
                assert(communities@.take(0) =~= Seq::<Community>::empty());
                assert(visitor.visited() =~= start.visited() + order);
                while i < communities.len()
                    invariant
                        *self == Community::LNCommunity(*communities),
                        forall|node: usize| #[trigger]
                            self.nodes().contains(node) ==> start.admits(node),
                        i <= communities.len(),
                        walks(communities@.take(i as int), order),
                        visitor.visited() == start.visited() + order,
                        forall|j: int, node: usize|
                            0 <= j < i && (#[trigger] communities@[j]).nodes().contains(node)
                                ==> #[trigger] visitor.answers(node),
                        forall|node: usize| #[trigger]
                            visitor.admits(node) == start.admits(node),
                        forall|node: usize| #[trigger]
                            visitor.answers(node) == start.answers(node),
                    decreases communities.len() - i,
                {
                    let community: &Community = &communities[i];
                    let ghost before = *visitor;
                    assert forall|node: usize| #[trigger]
                        community.nodes().contains(node) implies visitor.admits(node) by {
                        assert(communities@[i as int].nodes().contains(node));
                        assert(self.nodes().contains(node));
                    }
                    proof {
                        assert(decreases_to!(*self => self->LNCommunity_0));
                        assert(decreases_to!(self->LNCommunity_0 => communities@));
                        assert(decreases_to!(communities@ => communities@[i as int]));
                        assert(decreases_to!(*self => communities@[i as int]));
                    }
                    community.visit_nodes(visitor);
                    proof {
                        let leg = choose|leg: Seq<usize>| #[trigger]
                            community.walks(leg) && visitor.visited() == before.visited() + leg;
                        lemma_walk_on(communities@, i as int, order, leg);
                        assert(start.visited() + order + leg =~= start.visited() + (order + leg));
                        order = order + leg;
                        assert forall|j: int, node: usize|
                            0 <= j < i + 1 && (#[trigger] communities@[j]).nodes().contains(
                                node,
                            ) implies #[trigger] visitor.answers(node) by {
                            if j < i {
                                assert(before.answers(node));
                            }
                        }
                    }
                    i = i + 1;
                }
                assert(communities@.take(i as int) =~= communities@);
            },
        }
        assert(self.walks(order));
    }

    /// The nodes of the community, each as often as it is reported, in the order of a walk.
    pub fn walk(&self) -> (nodes: Vec<usize>)
        ensures
            self.walks(nodes@),
            forall|node: usize| #[trigger]
                nodes@.to_multiset().count(node) == self.reports(node),
    {
        let mut nodes: Vec<usize> = Vec::new();
        self.visit_nodes(&mut nodes);
        proof {
            let order = choose|order: Seq<usize>| #[trigger]
                self.walks(order) && nodes@ == Seq::<usize>::empty() + order;
            assert(nodes@ =~= order);
            crate::tally::law_walks_report(*self, nodes@);
        }
        nodes
    }

    /// Calls `f` with each node of the community, in the order of one walk through it.
    pub fn collect_nodes(&self, f: &impl Fn(usize))
        requires
            forall|node: usize| #[trigger] self.nodes().contains(node) ==> f.requires((node,)),
        ensures
            forall|node: usize| #[trigger] self.nodes().contains(node) ==> f.ensures((node,), ()),
            exists|order: Seq<usize>|
                {
                    &&& #[trigger] self.walks(order)
                    &&& forall|i: int|
                        0 <= i < order.len() ==> f.ensures((#[trigger] order[i],), ())
                },
    {
        let mut caller = Caller { f, calls: Ghost(Seq::empty()) };
        self.visit_nodes(&mut caller);
        proof {
            let order = choose|order: Seq<usize>| #[trigger]
                self.walks(order) && caller.visited() == Seq::<usize>::empty() + order;
            assert forall|i: int| 0 <= i < order.len() implies f.ensures(
                (#[trigger] order[i],),
                (),
            ) by {
                crate::tally::law_walks_meet(*self, order, order[i]);
                assert(self.nodes().contains(order[i]));
                assert(caller.answers(order[i]));
            }
            assert forall|node: usize| #[trigger] self.nodes().contains(node) implies f.ensures(
                (node,),
                (),
            ) by {
                assert(caller.answers(node));
            }
        }
    }
}

} // verus!
