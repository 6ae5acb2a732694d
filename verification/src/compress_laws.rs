//! What holds of graphs of communities.

use crate::binary32::Binary32;
use crate::community::Community;
use crate::graph::GraphView;
use vstd::prelude::*;

verus! {

/// Adding an edge makes its two nodes neighbours, and no others.
proof fn lemma_with_edge_adjacent(
    g: GraphView<Community, ()>,
    p: usize,
    q: usize,
    weight: Binary32,
    x: usize,
    y: usize,
)
    requires
        p != q,
        g.ids.contains_key((p, q)) <==> g.ids.contains_key((q, p)),
    ensures
        g.with_edge(p, q, (), weight).adjacent(x, y) <==> g.adjacent(x, y) || (x == p && y == q) || (x
            == q && y == p),
{
}

impl<N, E> GraphView<N, E> {
    /// `a` is in set `x`, `b` is in another set `y`, and an edge joins them.
    pub open spec fn crosses(
        self,
        parts: Seq<Set<usize>>,
        a: usize,
        b: usize,
        x: usize,
        y: usize,
    ) -> bool {
        &&& self.adjacent(a, b)
        &&& x < parts.len()
        &&& y < parts.len()
        &&& x != y
        &&& parts[x as int].contains(a)
        &&& parts[y as int].contains(b)
    }

    /// A crossing edge is found from the other side too.
    proof fn lemma_crosses_back(
        self,
        parts: Seq<Set<usize>>,
        a: usize,
        b: usize,
        x: usize,
        y: usize,
    )
        requires
            self.wf(),
            self.crosses(parts, a, b, x, y),
        ensures
            self.crosses(parts, b, a, y, x),
    {
        assert(self.ids.contains_key((a, b)));
    }

    proof fn lemma_crosses_place(
        self,
        parts: Seq<Set<usize>>,
        a: usize,
        b: usize,
        x: usize,
        y: usize,
    )
        requires
            self.wf(),
            self.nodes.len() <= usize::MAX,
            crate::refine::partitions(parts, crate::refine::numbers(self.nodes.len())),
        ensures
            self.crosses(parts, a, b, x, y) <==> self.adjacent(a, b) && x != y
                && crate::compress::place(parts, a) == x && crate::compress::place(parts, b) == y,
    {
        let all = crate::refine::numbers(self.nodes.len());
        if self.crosses(parts, a, b, x, y) {
            crate::compress::lemma_place(parts, all, x as int, a);
            crate::compress::lemma_place(parts, all, y as int, b);
        }
        if self.adjacent(a, b) {
            assert(self.ids.contains_key((a, b)));
            assert(all.contains(a) && all.contains(b));
        }
    }

    /// An edge between `a` and `b` joins the sets `x` and `y`, either way round.
    pub open spec fn meets(self, parts: Seq<Set<usize>>, a: usize, b: usize, x: usize, y: usize) -> bool {
        self.crosses(parts, a, b, x, y) || self.crosses(parts, a, b, y, x)
    }

    /// An edge from `i` to a node after it and below `b` joins the sets.
    spec fn row_meets(self, parts: Seq<Set<usize>>, i: usize, b: int, x: usize, y: usize) -> bool {
        exists|j: usize| i < j < b && #[trigger] self.meets(parts, i, j, x, y)
    }

    /// An edge from a node below `i` to a node after it joins the sets.
    spec fn rows_meet(self, parts: Seq<Set<usize>>, i: int, x: usize, y: usize) -> bool {
        exists|a: usize, b: usize| a < i && a < b && #[trigger] self.meets(parts, a, b, x, y)
    }

    proof fn lemma_row_back(self, parts: Seq<Set<usize>>, i: usize, b: int, x: usize, y: usize)
        requires
            self.row_meets(parts, i, b, x, y),
        ensures
            self.row_meets(parts, i, b, y, x),
    {
        let j = choose|j: usize| i < j < b && #[trigger] self.meets(parts, i, j, x, y);
        assert(self.meets(parts, i, j, y, x));
    }

    proof fn lemma_rows_back(self, parts: Seq<Set<usize>>, i: int, x: usize, y: usize)
        requires
            self.rows_meet(parts, i, x, y),
        ensures
            self.rows_meet(parts, i, y, x),
    {
        let (a, b) = choose|a: usize, b: usize|
            a < i && a < b && #[trigger] self.meets(parts, a, b, x, y);
        assert(self.meets(parts, a, b, y, x));
    }

    /// The edges that come from the pairs of `i` with the nodes after it and below `b`.
    proof fn lemma_bridged_to_adjacent(
        self,
        parts: Seq<Set<usize>>,
        g: GraphView<Community, ()>,
        i: usize,
        b: int,
        x: usize,
        y: usize,
    )
        requires
            self.wf(),
            b <= self.nodes.len() <= usize::MAX,
            crate::refine::partitions(parts, crate::refine::numbers(self.nodes.len())),
            forall|x: usize, y: usize| #[trigger] g.adjacent(x, y) ==> g.adjacent(y, x),
        ensures
            self.bridged_to(parts, g, i, b).adjacent(x, y) <==> g.adjacent(x, y) || self.row_meets(
                parts,
                i,
                b,
                x,
                y,
            ),
        decreases b,
    {
        if i + 1 < b {
            let rest = self.bridged_to(parts, g, i, b - 1);
            let last = (b - 1) as usize;
            self.lemma_bridged_to_adjacent(parts, g, i, b - 1, x, y);
            self.lemma_crosses_place(parts, i, last, x, y);
            self.lemma_crosses_place(parts, i, last, y, x);
            let all = crate::refine::numbers(self.nodes.len());
            crate::refine::lemma_numbers(self.nodes.len());
            crate::refine::lemma_partition_size(parts, all);
            assert(self.row_meets(parts, i, b, x, y) <==> self.row_meets(parts, i, b - 1, x, y)
                || self.meets(parts, i, last, x, y)) by {
                if self.row_meets(parts, i, b, x, y) {
                    let j = choose|j: usize| i < j < b && #[trigger] self.meets(parts, i, j, x, y);
                    if j != last {
                        assert(i < j < b - 1);
                    }
                }
                if self.row_meets(parts, i, b - 1, x, y) {
                    let j = choose|j: usize|
                        i < j < b - 1 && #[trigger] self.meets(parts, i, j, x, y);
                    assert(i < j < b);
                }
            }
            if self.adjacent(i, last) && crate::compress::place(parts, i)
                != crate::compress::place(parts, last) {
                assert(self.ids.contains_key((i, last)));
                assert(all.contains(i) && all.contains(last));
                let p = crate::compress::place(parts, i) as usize;
                let q = crate::compress::place(parts, last) as usize;
                self.lemma_bridged_to_adjacent(parts, g, i, b - 1, p, q);
                self.lemma_bridged_to_adjacent(parts, g, i, b - 1, q, p);
                if self.row_meets(parts, i, b - 1, p, q) {
                    self.lemma_row_back(parts, i, b - 1, p, q);
                }
                if self.row_meets(parts, i, b - 1, q, p) {
                    self.lemma_row_back(parts, i, b - 1, q, p);
                }
                assert(g.adjacent(p, q) <==> g.adjacent(q, p));
                assert(rest.adjacent(p, q) <==> rest.adjacent(q, p));
                lemma_with_edge_adjacent(rest, p, q, self.weight(i, last), x, y);
            }
        }
    }

    /// The edges that come from the nodes below `i`.
    proof fn lemma_bridged_below_adjacent(
        self,
        parts: Seq<Set<usize>>,
        g: GraphView<Community, ()>,
        i: int,
        x: usize,
        y: usize,
    )
        requires
            self.wf(),
            i <= self.nodes.len() <= usize::MAX,
            crate::refine::partitions(parts, crate::refine::numbers(self.nodes.len())),
            forall|x: usize, y: usize| !#[trigger] g.adjacent(x, y),
        ensures
            self.bridged_below(parts, g, i).adjacent(x, y) <==> self.rows_meet(parts, i, x, y),
        decreases i,
    {
        if 0 < i {
            let last = (i - 1) as usize;
            let below = self.bridged_below(parts, g, i - 1);
            let rest = below.with_inner(
                crate::compress::place(parts, last) as usize,
                self.inner[last as int],
            );
            assert forall|x: usize, y: usize| #[trigger] rest.adjacent(x, y) == below.adjacent(
                x,
                y,
            ) by {}
            let n = self.nodes.len() as int;
            assert forall|x: usize, y: usize| #[trigger] rest.adjacent(
                x,
                y,
            ) implies rest.adjacent(y, x) by {
                self.lemma_bridged_below_adjacent(parts, g, i - 1, x, y);
                self.lemma_rows_back(parts, i - 1, x, y);
                self.lemma_bridged_below_adjacent(parts, g, i - 1, y, x);
            }
            self.lemma_bridged_below_adjacent(parts, g, i - 1, x, y);
            self.lemma_bridged_to_adjacent(parts, rest, last, n, x, y);
            if self.rows_meet(parts, i, x, y) {
                let (a, b) = choose|a: usize, b: usize|
                    a < i && a < b && #[trigger] self.meets(parts, a, b, x, y);
                assert(self.ids.contains_key((a, b)));
                if a == last {
                    assert(self.row_meets(parts, last, n, x, y));
                } else {
                    assert(a < i - 1);
                }
            }
            if self.row_meets(parts, last, n, x, y) {
                let j = choose|j: usize| last < j < n && #[trigger] self.meets(parts, last, j, x, y);
                assert(last < i && last < j);
            }
            if self.rows_meet(parts, i - 1, x, y) {
                let (a, b) = choose|a: usize, b: usize|
                    a < i - 1 && a < b && #[trigger] self.meets(parts, a, b, x, y);
                assert(a < i && a < b);
            }
        } else {
            assert(!g.adjacent(x, y));
        }
    }

    /// Two communities are neighbours if and only if an edge joins a node of the one and
    /// a node of the other.
    pub proof fn law_bridges(
        self,
        parts: Seq<Set<usize>>,
        nodes: Seq<Community>,
        x: usize,
        y: usize,
    )
        requires
            self.wf(),
            self.nodes.len() <= usize::MAX,
            crate::refine::partitions(parts, crate::refine::numbers(self.nodes.len())),
        ensures
            self.bridged(parts, nodes).adjacent(x, y) <==> exists|a: usize, b: usize| #[trigger]
                self.crosses(parts, a, b, x, y),
    {
        let start = crate::compress::nodes_alone(nodes);
        let n = self.nodes.len() as int;
        self.lemma_bridged_below_adjacent(parts, start, n, x, y);
        if self.rows_meet(parts, n, x, y) {
            let (a, b) = choose|a: usize, b: usize|
                a < n && a < b && #[trigger] self.meets(parts, a, b, x, y);
            if !self.crosses(parts, a, b, x, y) {
                self.lemma_crosses_back(parts, a, b, y, x);
                assert(self.crosses(parts, b, a, x, y));
            }
        }
        if exists|a: usize, b: usize| #[trigger] self.crosses(parts, a, b, x, y) {
            let (a, b) = choose|a: usize, b: usize| #[trigger] self.crosses(parts, a, b, x, y);
            assert(self.ids.contains_key((a, b)));
            if a < b {
                assert(self.meets(parts, a, b, x, y));
            } else {
                self.lemma_crosses_back(parts, a, b, x, y);
                assert(self.meets(parts, b, a, x, y));
            }
            assert(self.rows_meet(parts, n, x, y));
        }
    }
}

/// Pairs are joined by edges that there are.
spec fn numbered(g: GraphView<Community, ()>) -> bool {
    forall|x: usize, y: usize| #[trigger]
        g.ids.contains_key((x, y)) ==> g.ids[(x, y)] < g.edges.len()
}

/// An edge more leaves no edge less.
proof fn lemma_edge_grows(g: GraphView<Community, ()>, p: usize, q: usize, weight: Binary32)
    requires
        numbered(g),
    ensures
        numbered(g.with_edge(p, q, (), weight)),
        g.edges.len() <= g.with_edge(p, q, (), weight).edges.len(),
{
    let made = g.with_edge(p, q, (), weight);
    if g.ids.contains_key((p, q)) {
        assert(g.ids[(p, q)] < g.edges.len());
    }
    assert forall|x: usize, y: usize| #[trigger] made.ids.contains_key((x, y)) implies made.ids[(
        x,
        y,
    )] < made.edges.len() by {
        if g.ids.contains_key((x, y)) {
            assert(g.ids[(x, y)] < g.edges.len());
        }
    }
}

/// A sum, or none yet, with one more weight.
pub open spec fn and_weight(sum: Option<Binary32>, weight: Binary32) -> Option<Binary32> {
    Some(
        match sum {
            None => weight,
            Some(sum) => sum.added(weight),
        },
    )
}

/// The weight of the edge between `x` and `y`.
pub open spec fn edge_weight<N, E>(g: GraphView<N, E>, x: usize, y: usize) -> Option<Binary32> {
    match g.edge_between(x, y) {
        None => None,
        Some(edge) => Some(edge.weight),
    }
}

impl<N, E> GraphView<N, E> {
    /// The weights of the edges between the sets `x` and `y` that start from a node below
    /// `i`, and from node `i` to a node below `b`, added up by these nodes in order.
    pub open spec fn crossing(
        self,
        parts: Seq<Set<usize>>,
        x: usize,
        y: usize,
        i: int,
        b: int,
    ) -> Option<Binary32>
        decreases i + 1, b,
    {
        if i < 0 {
            None
        } else if b <= i + 1 {
            self.crossing(parts, x, y, i - 1, self.nodes.len() as int)
        } else {
            let rest = self.crossing(parts, x, y, i, b - 1);
            if self.meets(parts, i as usize, (b - 1) as usize, x, y) {
                and_weight(rest, self.weight(i as usize, (b - 1) as usize))
            } else {
                rest
            }
        }
    }

    /// The weights inside the nodes of set `x` up to `i`, and of the edges within it that
    /// start from a node below `i`, or from node `i` to a node below `b`, added up by these
    /// nodes in order.
    pub open spec fn inside(self, parts: Seq<Set<usize>>, x: usize, i: int, b: int) -> Binary32
        decreases i + 1, b,
    {
        if i < 0 {
            Binary32 { bits: 0 }
        } else if b <= i + 1 {
            let rest = self.inside(parts, x, i - 1, self.nodes.len() as int);
            if parts[x as int].contains(i as usize) {
                rest.added(self.inner[i])
            } else {
                rest
            }
        } else {
            let rest = self.inside(parts, x, i, b - 1);
            let j = (b - 1) as usize;
            if self.adjacent(i as usize, j) && parts[x as int].contains(i as usize)
                && parts[x as int].contains(j) {
                rest.added(self.weight(i as usize, j))
            } else {
                rest
            }
        }
    }

    /// What `g` has between and inside its communities is what the edges of the graph up
    /// to those from `i` to the nodes below `b` give.
    pub(crate) open spec fn carried(
        self,
        parts: Seq<Set<usize>>,
        g: GraphView<Community, ()>,
        i: int,
        b: int,
    ) -> bool {
        &&& g.wf()
        &&& g.nodes.len() == parts.len()
        &&& forall|x: usize, y: usize|
            x != y && x < parts.len() && y < parts.len() ==> #[trigger] edge_weight(g, x, y)
                == self.crossing(parts, x, y, i, b)
        &&& forall|x: usize|
            x < parts.len() ==> #[trigger] g.inner[x as int] == self.inside(parts, x, i, b)
    }

    /// More weight inside a community.
    proof fn lemma_carry_inner(
        self,
        parts: Seq<Set<usize>>,
        g: GraphView<Community, ()>,
        p: usize,
        weight: Binary32,
    )
        requires
            g.wf(),
            p < g.nodes.len(),
        ensures
            g.with_inner(p, weight).wf(),
            forall|x: usize, y: usize| #[trigger]
                edge_weight(g.with_inner(p, weight), x, y) == edge_weight(g, x, y),
    {
        g.lemma_other_data(g.with_inner(p, weight));
    }

    /// One more edge between communities.
    proof fn lemma_carry_edge(
        self,
        g: GraphView<Community, ()>,
        p: usize,
        q: usize,
        weight: Binary32,
        x: usize,
        y: usize,
    )
        requires
            g.wf(),
            g.edges.len() <= usize::MAX,
            p != q,
            p < g.nodes.len(),
            q < g.nodes.len(),
            x != y,
        ensures
            g.with_edge(p, q, (), weight).wf(),
            edge_weight(g.with_edge(p, q, (), weight), x, y) == (if (x == p && y == q) || (x == q
                && y == p) {
                and_weight(edge_weight(g, x, y), weight)
            } else {
                edge_weight(g, x, y)
            }),
    {
        g.lemma_with_edge(p, q, (), weight);
        g.law_added_edge_is_found(p, q, (), weight);
        g.law_edge_both_ways(p, q);
        if !((x == p && y == q) || (x == q && y == p)) {
            g.law_other_edges_are_kept(p, q, (), weight, x, y);
        }
    }

    proof fn lemma_carried_row(
        self,
        parts: Seq<Set<usize>>,
        g: GraphView<Community, ()>,
        i: usize,
        b: int,
    )
        requires
            self.wf(),
            i < self.nodes.len() <= usize::MAX,
            b <= self.nodes.len(),
            crate::refine::partitions(parts, crate::refine::numbers(self.nodes.len())),
            self.carried(parts, g, i as int, 0),
            self.bridged_to(parts, g, i, b).edges.len() <= usize::MAX,
        ensures
            self.carried(parts, self.bridged_to(parts, g, i, b), i as int, b),
            g.edges.len() <= self.bridged_to(parts, g, i, b).edges.len(),
        decreases b,
    {
        if b <= i + 1 {
            assert forall|x: usize, y: usize|
                x != y && x < parts.len() && y < parts.len() implies #[trigger] edge_weight(g, x, y)
                == self.crossing(parts, x, y, i as int, b) by {
                assert(self.crossing(parts, x, y, i as int, b) == self.crossing(
                    parts,
                    x,
                    y,
                    i as int,
                    0,
                ));
            }
            assert forall|x: usize| x < parts.len() implies #[trigger] g.inner[x as int]
                == self.inside(parts, x, i as int, b) by {
                assert(self.inside(parts, x, i as int, b) == self.inside(parts, x, i as int, 0));
            }
        } else {
            let j = (b - 1) as usize;
            let rest = self.bridged_to(parts, g, i, b - 1);
            let all = crate::refine::numbers(self.nodes.len());
            let p = crate::compress::place(parts, i) as usize;
            let q = crate::compress::place(parts, j) as usize;
            assert(all.contains(i) && all.contains(j));
            crate::refine::lemma_numbers(self.nodes.len());
            crate::refine::lemma_partition_size(parts, all);
            self.lemma_row_grows(parts, g, i, b - 1);
            lemma_edge_grows(rest, p, q, self.weight(i, j));
            self.lemma_carried_row(parts, g, i, b - 1);
            let made = self.bridged_to(parts, g, i, b);
            let weight = self.weight(i, j);
            if self.adjacent(i, j) && p != q {
                self.lemma_carry_edge(rest, p, q, weight, p, q);
            } else if self.adjacent(i, j) {
                self.lemma_carry_inner(parts, rest, p, weight);
            }
            assert forall|x: usize, y: usize|
                x != y && x < parts.len() && y < parts.len() implies #[trigger] edge_weight(
                made,
                x,
                y,
            ) == self.crossing(parts, x, y, i as int, b) by {
                self.lemma_crosses_place(parts, i, j, x, y);
                self.lemma_crosses_place(parts, i, j, y, x);
                assert(edge_weight(rest, x, y) == self.crossing(parts, x, y, i as int, b - 1));
                if self.adjacent(i, j) && p != q {
                    self.lemma_carry_edge(rest, p, q, weight, x, y);
                } else if self.adjacent(i, j) {
                    assert(edge_weight(made, x, y) == edge_weight(rest, x, y));
                }
            }
            assert forall|x: usize| x < parts.len() implies #[trigger] made.inner[x as int]
                == self.inside(parts, x, i as int, b) by {
                assert(rest.inner[x as int] == self.inside(parts, x, i as int, b - 1));
                if parts[x as int].contains(i) {
                    crate::compress::lemma_place(parts, all, x as int, i);
                }
                if parts[x as int].contains(j) {
                    crate::compress::lemma_place(parts, all, x as int, j);
                }
            }
        }
    }

    pub(crate) proof fn lemma_carried(
        self,
        parts: Seq<Set<usize>>,
        nodes: Seq<Community>,
        i: int,
    )
        requires
            self.wf(),
            0 <= i <= self.nodes.len() <= usize::MAX,
            nodes.len() == parts.len(),
            crate::refine::partitions(parts, crate::refine::numbers(self.nodes.len())),
            self.bridged_below(parts, crate::compress::nodes_alone(nodes), i).edges.len()
                <= usize::MAX,
        ensures
            self.carried(
                parts,
                self.bridged_below(parts, crate::compress::nodes_alone(nodes), i),
                i - 1,
                self.nodes.len() as int,
            ),
        decreases i,
    {
        let start = crate::compress::nodes_alone(nodes);
        if i == 0 {
            assert(start.wf());
            assert forall|x: usize, y: usize|
                x != y && x < parts.len() && y < parts.len() implies #[trigger] edge_weight(
                start,
                x,
                y,
            ) == self.crossing(parts, x, y, -1, self.nodes.len() as int) by {}
        } else {
            let node = (i - 1) as usize;
            let all = crate::refine::numbers(self.nodes.len());
            let n = self.nodes.len() as int;
            let below = self.bridged_below(parts, start, i - 1);
            let p = crate::compress::place(parts, node) as usize;
            let g = below.with_inner(p, self.inner[node as int]);
            assert(all.contains(node));
            crate::refine::lemma_numbers(self.nodes.len());
            crate::refine::lemma_partition_size(parts, all);
            self.lemma_rows_numbered(parts, nodes, i - 1);
            assert(numbered(g)) by {
                assert forall|x: usize, y: usize| #[trigger] g.ids.contains_key(
                    (x, y),
                ) implies g.ids[(x, y)] < g.edges.len() by {
                    assert(below.ids.contains_key((x, y)));
                }
            }
            self.lemma_row_grows(parts, g, node, n);
            self.lemma_carried(parts, nodes, i - 1);
            self.lemma_carry_inner(parts, below, p, self.inner[node as int]);
            assert forall|x: usize, y: usize|
                x != y && x < parts.len() && y < parts.len() implies #[trigger] edge_weight(
                g,
                x,
                y,
            ) == self.crossing(parts, x, y, node as int, 0) by {
                assert(edge_weight(below, x, y) == self.crossing(parts, x, y, i - 2, n));
            }
            assert forall|x: usize| x < parts.len() implies #[trigger] g.inner[x as int]
                == self.inside(parts, x, node as int, 0) by {
                assert(below.inner[x as int] == self.inside(parts, x, i - 2, n));
                if parts[x as int].contains(node) {
                    crate::compress::lemma_place(parts, all, x as int, node);
                }
            }
            self.lemma_carried_row(parts, g, node, n);
        }
    }

    /// Edges are never lost.
    proof fn lemma_row_grows(
        self,
        parts: Seq<Set<usize>>,
        g: GraphView<Community, ()>,
        i: usize,
        b: int,
    )
        requires
            numbered(g),
        ensures
            numbered(self.bridged_to(parts, g, i, b)),
            g.edges.len() <= self.bridged_to(parts, g, i, b).edges.len(),
        decreases b,
    {
        if i + 1 < b {
            self.lemma_row_grows(parts, g, i, b - 1);
            let j = (b - 1) as usize;
            lemma_edge_grows(
                self.bridged_to(parts, g, i, b - 1),
                crate::compress::place(parts, i) as usize,
                crate::compress::place(parts, j) as usize,
                self.weight(i, j),
            );
        }
    }

    proof fn lemma_rows_numbered(self, parts: Seq<Set<usize>>, nodes: Seq<Community>, i: int)
        ensures
            numbered(self.bridged_below(parts, crate::compress::nodes_alone(nodes), i)),
        decreases i,
    {
        if 0 < i {
            let node = (i - 1) as usize;
            self.lemma_rows_numbered(parts, nodes, i - 1);
            let below = self.bridged_below(parts, crate::compress::nodes_alone(nodes), i - 1);
            let g = below.with_inner(
                crate::compress::place(parts, node) as usize,
                self.inner[node as int],
            );
            assert(numbered(g)) by {
                assert forall|x: usize, y: usize| #[trigger] g.ids.contains_key(
                    (x, y),
                ) implies g.ids[(x, y)] < g.edges.len() by {
                    assert(below.ids.contains_key((x, y)));
                }
            }
            self.lemma_row_grows(parts, g, node, self.nodes.len() as int);
        }
    }

    /// The edge between two communities weighs as much as the edges between their nodes
    /// together, and the weight inside a community is that of the edges between its nodes
    /// and inside them.
    pub proof fn law_weight_is_carried(
        self,
        parts: Seq<Set<usize>>,
        nodes: Seq<Community>,
        x: usize,
        y: usize,
    )
        requires
            self.wf(),
            self.nodes.len() <= usize::MAX,
            nodes.len() == parts.len(),
            crate::refine::partitions(parts, crate::refine::numbers(self.nodes.len())),
            self.bridged(parts, nodes).edges.len() <= usize::MAX,
            x < parts.len(),
            y < parts.len(),
            x != y,
        ensures
            edge_weight(self.bridged(parts, nodes), x, y) == self.crossing(
                parts,
                x,
                y,
                self.nodes.len() - 1,
                self.nodes.len() as int,
            ),
            self.bridged(parts, nodes).inner[x as int] == self.inside(
                parts,
                x,
                self.nodes.len() - 1,
                self.nodes.len() as int,
            ),
    {
        self.lemma_carried(parts, nodes, self.nodes.len() as int);
    }
}

} // verus!
