//! What holds of graphs as nodes and edges are added.

use crate::binary32::Binary32;
use crate::graph::{EdgeInfo, GraphView};
use vstd::prelude::*;

verus! {

impl<N, E> GraphView<N, E> {
    /// An edge is the same seen from either of its nodes.
    pub proof fn law_edge_both_ways(self, a: usize, b: usize)
        requires
            self.wf(),
        ensures
            self.edge_between(a, b) == self.edge_between(b, a),
    {
        if self.ids.contains_key((a, b)) {
            assert(self.ids.contains_key((b, a)));
        }
        if self.ids.contains_key((b, a)) {
            assert(self.ids.contains_key((a, b)));
        }
    }

    /// No node is joined to itself, and edges join only nodes of the graph.
    pub proof fn law_edge_ends(self, a: usize, b: usize)
        requires
            self.wf(),
            self.edge_between(a, b) is Some,
        ensures
            a != b,
            a < self.nodes.len(),
            b < self.nodes.len(),
    {
        assert(self.ids.contains_key((a, b)));
    }

    /// An edge that was added is found from both of its nodes. It has the data it was
    /// last added with; where it was there before, it has gained the weight and kept its
    /// number, and else it has the next number.
    pub proof fn law_added_edge_is_found(
        self,
        a: usize,
        b: usize,
        edge_data: E,
        weight: Binary32,
    )
        requires
            self.wf(),
            self.edges.len() <= usize::MAX,
            a != b,
        ensures
            self.with_edge(a, b, edge_data, weight).edge_between(a, b) == Some(
                match self.edge_between(a, b) {
                    Some(edge) => EdgeInfo {
                        edge_data,
                        weight: edge.weight.added(weight),
                        id: edge.id,
                    },
                    None => EdgeInfo { edge_data, weight, id: self.edges.len() as usize },
                },
            ),
            self.with_edge(a, b, edge_data, weight).edge_between(b, a) == self.with_edge(
                a,
                b,
                edge_data,
                weight,
            ).edge_between(a, b),
    {
        if self.ids.contains_key((a, b)) {
            assert(self.ids.contains_key((b, a)));
        }
    }

    /// Adding an edge leaves every other edge as it is.
    pub proof fn law_other_edges_are_kept(
        self,
        a: usize,
        b: usize,
        edge_data: E,
        weight: Binary32,
        c: usize,
        d: usize,
    )
        requires
            self.wf(),
            !(c == a && d == b),
            !(c == b && d == a),
        ensures
            self.with_edge(a, b, edge_data, weight).edge_between(c, d) == self.edge_between(c, d),
    {
        if self.ids.contains_key((c, d)) {
            assert(self.ids.contains_key((d, c)));
            if self.ids.contains_key((a, b)) {
                assert(self.ids[(c, d)] != self.ids[(a, b)]);
            }
        }
    }

    /// It does not matter which node of an edge is named first.
    pub proof fn law_direction_is_irrelevant(
        self,
        a: usize,
        b: usize,
        edge_data: E,
        weight: Binary32,
    )
        requires
            self.wf(),
        ensures
            self.with_edge(a, b, edge_data, weight) == self.with_edge(b, a, edge_data, weight),
    {
        if self.ids.contains_key((a, b)) {
            assert(self.ids.contains_key((b, a)));
        }
        if self.ids.contains_key((b, a)) {
            assert(self.ids.contains_key((a, b)));
        }
        assert(self.with_edge(a, b, edge_data, weight) =~= self.with_edge(
            b,
            a,
            edge_data,
            weight,
        ));
    }

    /// Adding an edge twice leaves one edge, with both weights and the later data.
    pub proof fn law_added_twice(
        self,
        a: usize,
        b: usize,
        first_data: E,
        first: Binary32,
        second_data: E,
        second: Binary32,
    )
        requires
            self.wf(),
            self.edges.len() < usize::MAX,
            a != b,
        ensures
            ({
                let once = self.with_edge(a, b, first_data, first);
                let twice = once.with_edge(b, a, second_data, second);
                &&& twice.edges.len() == once.edges.len()
                &&& twice.ids == once.ids
                &&& twice.edge_between(a, b) == Some(
                    EdgeInfo {
                        edge_data: second_data,
                        weight: once.edge_between(a, b)->0.weight.added(second),
                        id: once.edge_between(a, b)->0.id,
                    },
                )
                &&& twice.total_weight == self.total_weight.added(first).added(second)
            }),
    {
        if self.ids.contains_key((a, b)) {
            assert(self.ids.contains_key((b, a)));
        }
    }

    /// Adding nodes and edges puts no weight inside nodes.
    pub proof fn law_stays_plain(
        self,
        node_data: N,
        a: usize,
        b: usize,
        edge_data: E,
        weight: Binary32,
    )
        requires
            self.plain(),
        ensures
            GraphView::<N, E>::empty().plain(),
            self.with_node(node_data).plain(),
            self.with_edge(a, b, edge_data, weight).plain(),
    {
        assert forall|i: int| 0 <= i < self.with_node(node_data).inner.len() implies (
        #[trigger] self.with_node(node_data).inner[i]) == (Binary32 { bits: 0 }) by {
            if i < self.inner.len() {
                assert(self.inner[i] == (Binary32 { bits: 0 }));
            }
        }
        assert(self.with_edge(a, b, edge_data, weight).inner == self.inner);
    }

    /// A new node has no edges, and the edges that there are stay.
    pub proof fn law_new_node_is_alone(self, node_data: N, a: usize, b: usize)
        requires
            self.wf(),
        ensures
            self.with_node(node_data).edge_between(a, b) == self.edge_between(a, b),
            a == self.nodes.len() ==> self.with_node(node_data).edge_between(a, b) is None,
            b == self.nodes.len() ==> self.with_node(node_data).edge_between(a, b) is None,
    {
        if self.ids.contains_key((a, b)) {
            assert(a < self.nodes.len() && b < self.nodes.len());
        }
    }
}

/// A request to add an edge.
pub struct Link<E> {
    pub a: usize,
    pub b: usize,
    pub edge_data: E,
    pub weight: Binary32,
}

impl<E> Link<E> {
    /// The request is for the pair `a`, `b`, either way round.
    pub open spec fn joins(self, a: usize, b: usize) -> bool {
        (self.a == a && self.b == b) || (self.a == b && self.b == a)
    }
}

/// How many different pairs the requests in `links` join.
pub open spec fn pair_count<E>(links: Seq<Link<E>>) -> nat
    decreases links.len(),
{
    if links.len() == 0 {
        0
    } else {
        let rest = links.drop_last();
        let last = links.last();
        pair_count(rest) + if last.a != last.b && pair_edge(rest, last.a, last.b) is None {
            1nat
        } else {
            0nat
        }
    }
}

/// The edge that the requests in `links` make for the pair `a`, `b`: the data is the
/// latest, the weights are added in order, and the number is that of the pairs that
/// came before.
pub open spec fn pair_edge<E>(links: Seq<Link<E>>, a: usize, b: usize) -> Option<EdgeInfo<E>>
    decreases links.len(),
{
    if links.len() == 0 {
        None
    } else {
        let rest = links.drop_last();
        let last = links.last();
        if !last.joins(a, b) {
            pair_edge(rest, a, b)
        } else {
            Some(
                match pair_edge(rest, a, b) {
                    None => EdgeInfo {
                        edge_data: last.edge_data,
                        weight: last.weight,
                        id: pair_count(rest) as usize,
                    },
                    Some(edge) => EdgeInfo {
                        edge_data: last.edge_data,
                        weight: edge.weight.added(last.weight),
                        id: edge.id,
                    },
                },
            )
        }
    }
}

/// The weights that `links` ask for, loops left out, added to `start` in order.
pub open spec fn link_total<E>(start: Binary32, links: Seq<Link<E>>) -> Binary32
    decreases links.len(),
{
    if links.len() == 0 {
        start
    } else if links.last().a == links.last().b {
        link_total(start, links.drop_last())
    } else {
        link_total(start, links.drop_last()).added(links.last().weight)
    }
}

impl<N, E> GraphView<N, E> {
    /// The graph after all the edges in `links` were added.
    pub open spec fn with_links(self, links: Seq<Link<E>>) -> GraphView<N, E>
        decreases links.len(),
    {
        if links.len() == 0 {
            self
        } else {
            let last = links.last();
            self.with_links(links.drop_last()).with_edge(
                last.a,
                last.b,
                last.edge_data,
                last.weight,
            )
        }
    }

    /// After a history of added edges, the edge between two nodes is the one that the
    /// requests for this pair make, and the total weight is the sum of all weights
    /// asked for.
    pub proof fn law_history(self, links: Seq<Link<E>>, a: usize, b: usize)
        requires
            self.wf(),
            self.edges.len() == 0,
            links.len() <= usize::MAX,
            forall|i: int|
                0 <= i < links.len() ==> (#[trigger] links[i]).a == links[i].b || (links[i].a
                    < self.nodes.len() && links[i].b < self.nodes.len()),
            a != b,
        ensures
            self.with_links(links).wf(),
            self.with_links(links).nodes == self.nodes,
            self.with_links(links).edge_between(a, b) == pair_edge(links, a, b),
            self.with_links(links).edges.len() == pair_count(links),
            self.with_links(links).edges.len() <= links.len(),
            self.with_links(links).total_weight == link_total(self.total_weight, links),
        decreases links.len(),
    {
        if links.len() == 0 {
            if self.ids.contains_key((a, b)) {
                assert(self.ids[(a, b)] < self.edges.len());
            }
        } else {
            let rest = links.drop_last();
            let last = links.last();
            let before = self.with_links(rest);
            assert forall|i: int| 0 <= i < rest.len() implies (#[trigger] rest[i]).a == rest[i].b
                || (rest[i].a < self.nodes.len() && rest[i].b < self.nodes.len()) by {
                assert(rest[i] == links[i]);
            }
            self.law_history(rest, a, b);
            assert(links[links.len() - 1] == last);
            before.lemma_with_edge(last.a, last.b, last.edge_data, last.weight);
            if last.a != last.b {
                self.law_history(rest, last.a, last.b);
                before.law_added_edge_is_found(last.a, last.b, last.edge_data, last.weight);
                if last.joins(a, b) {
                    before.law_edge_both_ways(a, b);
                } else {
                    before.law_other_edges_are_kept(
                        last.a,
                        last.b,
                        last.edge_data,
                        last.weight,
                        a,
                        b,
                    );
                }
            }
        }
    }

    /// The total weight is the sum of the weights of the edges and of those inside nodes.
    pub open spec fn balanced(self) -> bool {
        self.total_weight.amount() == self.exact_total()
    }

    /// The empty graph is balanced, and a new node leaves a graph balanced.
    pub proof fn law_nodes_keep_balance(self, node_data: N)
        ensures
            GraphView::<N, E>::empty().balanced(),
            self.balanced() ==> self.with_node(node_data).balanced(),
    {
        crate::binary32::lemma_zero_amount();
        let inner = self.with_node(node_data).inner;
        assert(inner.drop_last() =~= self.inner);
    }

    /// An edge leaves a graph balanced, where adding its weight to the total and to the
    /// edge that is there already needs no rounding.
    pub proof fn law_edges_keep_balance(
        self,
        a: usize,
        b: usize,
        edge_data: E,
        weight: Binary32,
    )
        requires
            self.wf(),
            self.balanced(),
            adds_exactly(self.total_weight, weight),
            match self.edge_between(a, b) {
                Some(edge) => adds_exactly(edge.weight, weight),
                None => true,
            },
        ensures
            self.with_edge(a, b, edge_data, weight).balanced(),
    {
        let g = self.with_edge(a, b, edge_data, weight);
        if a != b {
            if self.ids.contains_key((a, b)) {
                lemma_amounts_updated(self.edges, self.ids[(a, b)] as int, g.edges[self.ids[(a, b)] as int]);
            } else {
                assert(g.edges.drop_last() =~= self.edges);
            }
        }
    }
}

/// The sum of the two numbers needs no rounding.
pub open spec fn adds_exactly(a: Binary32, b: Binary32) -> bool {
    a.added(b).amount() == a.amount() + b.amount()
}

/// Replacing an edge changes the sum by the difference.
proof fn lemma_amounts_updated<E>(edges: Seq<EdgeInfo<E>>, k: int, edge: EdgeInfo<E>)
    requires
        0 <= k < edges.len(),
    ensures
        crate::exact::edge_amounts(edges.update(k, edge)) == crate::exact::edge_amounts(edges)
            - edges[k].weight.amount() + edge.weight.amount(),
    decreases edges.len(),
{
    let after = edges.update(k, edge);
    if k == edges.len() - 1 {
        assert(after.drop_last() =~= edges.drop_last());
    } else {
        lemma_amounts_updated(edges.drop_last(), k, edge);
        assert(after.drop_last() =~= edges.drop_last().update(k, edge));
    }
}

} // verus!
