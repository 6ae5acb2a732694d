//! Undirected weighted graphs.

use crate::binary32::Binary32;
use vstd::prelude::*;

verus! {

/// An edge: the data it carries, its weight, and its number.
#[derive(Debug)]
pub struct EdgeInfo<E> {
    pub edge_data: E,
    pub weight: Binary32,
    pub id: usize,
}

/// An undirected graph without loops, with at most one edge between two nodes.
#[derive(Debug)]
pub struct Graph<N, E> {
    pub(crate) nodes: Vec<N>,
    pub(crate) edges: Vec<EdgeInfo<E>>,
    /// The neighbours of each node with the number of the edge to them, sorted by
    /// neighbour.
    pub(crate) connections: Vec<Vec<(usize, usize)>>,
    /// The weight inside each node, which is zero but where a node stands for a
    /// community.
    pub(crate) inner: Vec<Binary32>,
    pub(crate) total_weight: Binary32,
}

/// What a graph is: its nodes and edges in the order they came, the number of the
/// edge between two nodes, in either direction, the weight inside each node, and the
/// sum of the weights added.
#[verifier::ext_equal]
pub struct GraphView<N, E> {
    pub nodes: Seq<N>,
    pub edges: Seq<EdgeInfo<E>>,
    pub ids: Map<(usize, usize), usize>,
    pub inner: Seq<Binary32>,
    pub total_weight: Binary32,
}

impl<N, E> GraphView<N, E> {
    /// The graph with nothing in it.
    pub open spec fn empty() -> GraphView<N, E> {
        GraphView {
            nodes: Seq::empty(),
            edges: Seq::empty(),
            ids: Map::empty(),
            inner: Seq::empty(),
            total_weight: Binary32 { bits: 0 },
        }
    }

    /// Edges join two different nodes, each edge one pair of them, and an edge is
    /// numbered by its place.
    pub open spec fn wf(self) -> bool {
        &&& self.inner.len() == self.nodes.len()
        &&& forall|a: usize, b: usize| #[trigger]
            self.ids.contains_key((a, b)) ==> {
                &&& a < self.nodes.len()
                &&& b < self.nodes.len()
                &&& a != b
                &&& self.ids[(a, b)] < self.edges.len()
                &&& self.ids.contains_key((b, a))
                &&& self.ids[(b, a)] == self.ids[(a, b)]
            }
        &&& forall|a: usize, b: usize, c: usize, d: usize|
            #![trigger self.ids.contains_key((a, b)), self.ids.contains_key((c, d))]
            self.ids.contains_key((a, b)) && self.ids.contains_key((c, d)) && self.ids[(a, b)]
                == self.ids[(c, d)] ==> (a == c && b == d) || (a == d && b == c)
        &&& forall|k: int| 0 <= k < self.edges.len() ==> (#[trigger] self.edges[k]).id == k
        &&& forall|k: int| 0 <= k < self.edges.len() ==> #[trigger] self.joins(k)
    }

    /// Edge `k` joins some pair of nodes.
    pub open spec fn joins(self, k: int) -> bool {
        exists|a: usize, b: usize| #[trigger]
            self.ids.contains_key((a, b)) && self.ids[(a, b)] == k
    }

    /// The edge between two nodes.
    pub open spec fn edge_between(self, a: usize, b: usize) -> Option<EdgeInfo<E>> {
        if self.ids.contains_key((a, b)) {
            Some(self.edges[self.ids[(a, b)] as int])
        } else {
            None
        }
    }

    /// No node has any weight inside.
    pub open spec fn plain(self) -> bool {
        forall|a: int|
            0 <= a < self.inner.len() ==> #[trigger] self.inner[a] == (Binary32 { bits: 0 })
    }

    /// The graph with one more node.
    pub open spec fn with_node(self, node_data: N) -> GraphView<N, E> {
        GraphView {
            nodes: self.nodes.push(node_data),
            inner: self.inner.push(Binary32 { bits: 0 }),
            ..self
        }
    }

    /// The graph with more weight inside node `a`.
    pub open spec fn with_inner(self, a: usize, weight: Binary32) -> GraphView<N, E> {
        GraphView {
            inner: self.inner.update(a as int, self.inner[a as int].added(weight)),
            total_weight: self.total_weight.added(weight),
            ..self
        }
    }

    /// A new node leaves a graph a graph.
    proof fn lemma_with_node(self, node_data: N)
        requires
            self.wf(),
        ensures
            self.with_node(node_data).wf(),
    {
        let g = self.with_node(node_data);
        assert forall|a: usize, b: usize| #[trigger] g.ids.contains_key((a, b)) implies {
            &&& a < g.nodes.len()
            &&& b < g.nodes.len()
            &&& a != b
            &&& g.ids[(a, b)] < g.edges.len()
            &&& g.ids.contains_key((b, a))
            &&& g.ids[(b, a)] == g.ids[(a, b)]
        } by {
            assert(self.ids.contains_key((a, b)));
        }
        assert forall|k: int| 0 <= k < g.edges.len() implies #[trigger] g.joins(k) by {
            assert(self.joins(k));
            let (a, b) = choose|a: usize, b: usize| #[trigger]
                self.ids.contains_key((a, b)) && self.ids[(a, b)] == k;
            assert(g.ids.contains_key((a, b)));
        }
    }

    /// A graph stays one where its nodes carry other data.
    pub(crate) proof fn lemma_other_data(self, g: GraphView<N, E>)
        requires
            self.wf(),
            g.nodes.len() == self.nodes.len(),
            g.inner.len() == self.inner.len(),
            g.edges == self.edges,
            g.ids == self.ids,
        ensures
            g.wf(),
    {
        assert forall|k: int| 0 <= k < g.edges.len() implies #[trigger] g.joins(k) by {
            assert(self.joins(k));
        }
    }

    /// The graph after an edge was added: an edge that is there already takes the data
    /// and gains the weight.
    pub open spec fn with_edge(self, a: usize, b: usize, edge_data: E, weight: Binary32) -> GraphView<
        N,
        E,
    > {
        if a == b {
            self
        } else if self.ids.contains_key((a, b)) {
            let id = self.ids[(a, b)];
            GraphView {
                edges: self.edges.update(
                    id as int,
                    EdgeInfo {
                        edge_data,
                        weight: self.edges[id as int].weight.added(weight),
                        id: self.edges[id as int].id,
                    },
                ),
                total_weight: self.total_weight.added(weight),
                ..self
            }
        } else {
            let id = self.edges.len() as usize;
            GraphView {
                edges: self.edges.push(EdgeInfo { edge_data, weight, id }),
                ids: self.ids.insert((a, b), id).insert((b, a), id),
                total_weight: self.total_weight.added(weight),
                ..self
            }
        }
    }

    /// A new edge between two nodes leaves a graph a graph.
    pub(crate) proof fn lemma_with_edge(self, a: usize, b: usize, edge_data: E, weight: Binary32)
        requires
            self.wf(),
            a == b || (a < self.nodes.len() && b < self.nodes.len()),
            self.edges.len() <= usize::MAX,
        ensures
            self.with_edge(a, b, edge_data, weight).wf(),
    {
        let g = self.with_edge(a, b, edge_data, weight);
        if a != b {
            assert forall|c: usize, d: usize| #[trigger] g.ids.contains_key((c, d)) implies {
                &&& c < g.nodes.len()
                &&& d < g.nodes.len()
                &&& c != d
                &&& g.ids[(c, d)] < g.edges.len()
                &&& g.ids.contains_key((d, c))
                &&& g.ids[(d, c)] == g.ids[(c, d)]
            } by {
                if self.ids.contains_key((c, d)) {
                    assert(self.ids.contains_key((d, c)));
                }
            }
            assert forall|c: usize, d: usize, x: usize, y: usize|
                #![trigger g.ids.contains_key((c, d)), g.ids.contains_key((x, y))]
                g.ids.contains_key((c, d)) && g.ids.contains_key((x, y)) && g.ids[(c, d)]
                    == g.ids[(x, y)] implies (c == x && d == y) || (c == y && d == x) by {
                assert(self.ids.contains_key((c, d)) || (c == a && d == b) || (c == b && d == a));
                assert(self.ids.contains_key((x, y)) || (x == a && y == b) || (x == b && y == a));
            }
            assert forall|k: int| 0 <= k < g.edges.len() implies #[trigger] g.joins(k) by {
                if k < self.edges.len() {
                    assert(self.joins(k));
                    let (c, d) = choose|c: usize, d: usize| #[trigger]
                        self.ids.contains_key((c, d)) && self.ids[(c, d)] == k;
                    assert(g.ids.contains_key((c, d)));
                } else {
                    assert(g.ids.contains_key((a, b)));
                }
            }
        }
    }
}

/// `list` is sorted by its first components, which are all different.
pub open spec fn sorted(list: Seq<(usize, usize)>) -> bool {
    forall|i: int, j: int| 0 <= i < j < list.len() ==> (#[trigger] list[i]).0 < (#[trigger] list[j]).0
}

/// `key` stands at place `i` of `list`.
pub open spec fn found_at(list: Seq<(usize, usize)>, key: usize, i: int) -> bool {
    0 <= i < list.len() && list[i].0 == key
}

/// Where `key` stands in `list`, or else where it belongs.
pub(crate) fn search(list: &Vec<(usize, usize)>, key: usize) -> (r: Result<usize, usize>)
    requires
        sorted(list@),
    ensures
        match r {
            Ok(i) => found_at(list@, key, i as int),
            Err(i) => {
                &&& i <= list.len()
                &&& forall|j: int| 0 <= j < i ==> (#[trigger] list[j]).0 < key
                &&& forall|j: int| i <= j < list.len() ==> key < (#[trigger] list[j]).0
            },
        },
{
    let mut low: usize = 0;
    let mut high: usize = list.len();
    while low < high
        invariant
            low <= high <= list.len(),
            sorted(list@),
            forall|j: int| 0 <= j < low ==> (#[trigger] list[j]).0 < key,
            forall|j: int| high <= j < list.len() ==> key < (#[trigger] list[j]).0,
        decreases high - low,
    {
        let middle: usize = low + (high - low) / 2;
        let here: usize = list[middle].0;
        if here == key {
            return Ok(middle);
        } else if here < key {
            low = middle + 1;
        } else {
            high = middle;
        }
    }
    Err(low)
}

impl<N, E> Graph<N, E> {
    /// The neighbours of `a` with the edges to them.
    pub open(crate) spec fn links(&self, a: int) -> Seq<(usize, usize)> {
        self.connections@[a]@
    }

    /// There is an edge from `a` to `b`.
    pub open(crate) spec fn linked(&self, a: usize, b: usize) -> bool {
        a < self.connections.len() && exists|i: int| found_at(self.links(a as int), b, i)
    }

    /// The number of the edge from `a` to `b`.
    pub open(crate) spec fn link(&self, a: usize, b: usize) -> usize {
        self.links(a as int)[choose|i: int| found_at(self.links(a as int), b, i)].1
    }

    pub open(crate) spec fn model(&self) -> GraphView<N, E> {
        GraphView {
            nodes: self.nodes@,
            edges: self.edges@,
            ids: Map::new(
                |p: (usize, usize)| self.linked(p.0, p.1),
                |p: (usize, usize)| self.link(p.0, p.1),
            ),
            inner: self.inner@,
            total_weight: self.total_weight,
        }
    }

    /// The neighbours are kept sorted, and what they say is a graph.
    pub open(crate) spec fn wf(&self) -> bool {
        &&& self.connections.len() == self.nodes.len()
        &&& forall|a: int| 0 <= a < self.connections.len() ==> sorted(#[trigger] self.links(a))
        &&& self.model().wf()
    }
}

impl<N, E> View for Graph<N, E> {
    type V = GraphView<N, E>;

    open(crate) spec fn view(&self) -> GraphView<N, E> {
        self.model()
    }
}

/// A place where `b` stands among the neighbours of `a` gives the edge between them.
pub(crate) proof fn lemma_link<N, E>(g: &Graph<N, E>, a: usize, i: int)
    requires
        a < g.connections.len(),
        sorted(g.links(a as int)),
        0 <= i < g.links(a as int).len(),
    ensures
        g@.ids.contains_key((a, g.links(a as int)[i].0)),
        g@.ids[(a, g.links(a as int)[i].0)] == g.links(a as int)[i].1,
{
    let list = g.links(a as int);
    assert(found_at(list, list[i].0, i));
    let j = choose|j: int| found_at(list, list[i].0, j);
    assert(i == j);
}

/// The edges between nodes are those that the neighbours say.
pub(crate) proof fn lemma_same_links<M, N, D, E>(g: &Graph<M, D>, h: &Graph<N, E>)
    requires
        g.connections == h.connections,
        forall|a: int| 0 <= a < g.connections.len() ==> sorted(#[trigger] g.links(a)),
    ensures
        g@.ids == h@.ids,
{
    assert forall|a: usize, b: usize|
        g.linked(a, b) == h.linked(a, b) && (g.linked(a, b) ==> g.link(a, b) == h.link(a, b)) by {
        if a < g.connections.len() {
            assert(g.links(a as int) == h.links(a as int));
            assert(sorted(g.links(a as int)));
            if g.linked(a, b) {
                let i = choose|i: int| found_at(g.links(a as int), b, i);
                lemma_link(g, a, i);
                lemma_link(h, a, i);
            }
        }
    }
    assert(g@.ids =~= h@.ids);
}

/// Where `b` is no neighbour of `a`, `a` is none of `b`.
proof fn lemma_missing<N, E>(g: &Graph<N, E>, a: usize, b: usize)
    requires
        g.wf(),
        a < g.connections.len(),
        b < g.connections.len(),
        forall|i: int| !found_at(g.links(a as int), b, i),
    ensures
        !g@.ids.contains_key((a, b)),
        !g@.ids.contains_key((b, a)),
        forall|i: int| !found_at(g.links(b as int), a, i),
{
    if g@.ids.contains_key((b, a)) {
        assert(g@.ids.contains_key((a, b)));
    }
    assert forall|i: int| !found_at(g.links(b as int), a, i) by {
        if found_at(g.links(b as int), a, i) {
            assert(g@.ids.contains_key((b, a)));
        }
    }
}

/// A key put where it belongs leaves a list sorted, and is the one that is new.
proof fn lemma_inserted(list: Seq<(usize, usize)>, pos: int, key: usize, id: usize)
    requires
        sorted(list),
        0 <= pos <= list.len(),
        forall|j: int| 0 <= j < pos ==> (#[trigger] list[j]).0 < key,
        forall|j: int| pos <= j < list.len() ==> key < (#[trigger] list[j]).0,
    ensures
        sorted(list.insert(pos, (key, id))),
        found_at(list.insert(pos, (key, id)), key, pos),
{
}

/// Putting a new edge among the neighbours of its two nodes adds it to the graph.
proof fn lemma_edge_inserted<N, E>(
    before: &Graph<N, E>,
    after: &Graph<N, E>,
    a: usize,
    b: usize,
    id: usize,
    i: int,
    j: int,
)
    requires
        before.wf(),
        a != b,
        a < before.connections.len(),
        b < before.connections.len(),
        after.connections.len() == before.connections.len(),
        0 <= i <= before.links(a as int).len(),
        0 <= j <= before.links(b as int).len(),
        after.links(a as int) == before.links(a as int).insert(i, (b, id)),
        after.links(b as int) == before.links(b as int).insert(j, (a, id)),
        forall|c: int|
            0 <= c < before.connections.len() && c != a && c != b ==> #[trigger] after.links(c)
                == before.links(c),
        sorted(after.links(a as int)),
        sorted(after.links(b as int)),
    ensures
        after@.ids == before@.ids.insert((a, b), id).insert((b, a), id),
        forall|c: int| 0 <= c < after.connections.len() ==> sorted(#[trigger] after.links(c)),
{
    assert forall|c: int| 0 <= c < after.connections.len() implies sorted(
        #[trigger] after.links(c),
    ) by {
        if c != a && c != b {
            assert(sorted(before.links(c)));
        }
    }
    let target = before@.ids.insert((a, b), id).insert((b, a), id);
    assert forall|c: usize, d: usize| #[trigger]
        after@.ids.contains_key((c, d)) == target.contains_key((c, d)) && (after@.ids.contains_key(
            (c, d),
        ) ==> after@.ids[(c, d)] == target[(c, d)]) by {
        if c == a {
            lemma_list_link(before, after, a, b, id, i, d);
        } else if c == b {
            lemma_list_link(before, after, b, a, id, j, d);
        } else if c < after.connections.len() {
            assert(after.links(c as int) == before.links(c as int));
        }
    }
    assert forall|p: (usize, usize)| #[trigger]
        after@.ids.contains_key(p) == target.contains_key(p) && (after@.ids.contains_key(p)
            ==> after@.ids[p] == target[p]) by {
        assert(p == (p.0, p.1));
    }
    assert(after@.ids =~= target);
}

/// What the neighbours of `a` say after `b` was put among them.
proof fn lemma_list_link<N, E>(
    before: &Graph<N, E>,
    after: &Graph<N, E>,
    a: usize,
    b: usize,
    id: usize,
    i: int,
    d: usize,
)
    requires
        a < before.connections.len(),
        after.connections.len() == before.connections.len(),
        0 <= i <= before.links(a as int).len(),
        after.links(a as int) == before.links(a as int).insert(i, (b, id)),
        sorted(before.links(a as int)),
        sorted(after.links(a as int)),
    ensures
        d == b ==> after.linked(a, d) && after.link(a, d) == id,
        d != b ==> after.linked(a, d) == before.linked(a, d),
        d != b && before.linked(a, d) ==> after.link(a, d) == before.link(a, d),
{
    let old_list = before.links(a as int);
    let list = after.links(a as int);
    if d == b {
        assert(found_at(list, b, i));
        lemma_link(after, a, i);
    } else {
        if before.linked(a, d) {
            let k = choose|k: int| found_at(old_list, d, k);
            let l = if k < i { k } else { k + 1 };
            assert(found_at(list, d, l));
            lemma_link(after, a, l);
            lemma_link(before, a, k);
        }
        if after.linked(a, d) {
            let l = choose|l: int| found_at(list, d, l);
            let k = if l < i { l } else { l - 1 };
            assert(found_at(old_list, d, k));
        }
    }
}

impl<N, E> Graph<N, E> {
    /// A graph with nothing in it.
    pub fn new() -> (g: Self)
        ensures
            g.wf(),
            g@ == GraphView::<N, E>::empty(),
    {
        let g = Self {
            nodes: Vec::new(),
            edges: Vec::new(),
            connections: Vec::new(),
            inner: Vec::new(),
            total_weight: Binary32 { bits: 0 },
        };
        assert(g@ =~= GraphView::<N, E>::empty());
        g
    }

    /// The data of the nodes, in the order they were added.
    pub fn node_data_slice(&self) -> (data: &[N])
        ensures
            data@ == self@.nodes,
    {
        self.nodes.as_slice()
    }

    /// The number of nodes.
    pub fn count_nodes(&self) -> (count: usize)
        ensures
            count as nat == self@.nodes.len(),
    {
        self.nodes.len()
    }

    /// Adds a node and hands back its number.
    pub fn add_node(&mut self, node_data: N) -> (id: usize)
        requires
            old(self).wf(),
        ensures
            final(self).wf(),
            id as nat == old(self)@.nodes.len(),
            final(self)@ == old(self)@.with_node(node_data),
    {
        let id: usize = self.nodes.len();
        let ghost before = *self;
        self.nodes.push(node_data);
        self.connections.push(Vec::new());
        self.inner.push(Binary32::from_bits(0));
        proof {
            assert forall|a: int| 0 <= a < self.connections.len() implies sorted(
                #[trigger] self.links(a),
            ) by {
                if a < before.connections.len() {
                    assert(self.links(a) == before.links(a));
                }
            }
            assert forall|a: usize, b: usize| self.linked(a, b) == before.linked(a, b) by {
                if a < before.connections.len() {
                    assert(self.links(a as int) == before.links(a as int));
                }
            }
            assert(self@.ids =~= before@.ids);
            assert(self@ =~= before@.with_node(node_data));
            before@.lemma_with_node(node_data);
        }
        id
    }

    /// Adds an edge and hands back its number, or nothing for a loop. Where the nodes are
    /// joined already, the weight is added to that of their edge and the data replaced.
    pub fn add_edge(&mut self, n1: usize, n2: usize, edge_data: E, weight: Binary32) -> (id: Option<
        usize,
    >)
        requires
            old(self).wf(),
            n1 == n2 || (n1 < old(self)@.nodes.len() && n2 < old(self)@.nodes.len()),
        ensures
            final(self).wf(),
            final(self)@ == old(self)@.with_edge(n1, n2, edge_data, weight),
            id == (if n1 == n2 {
                None
            } else {
                Some(final(self)@.ids[(n1, n2)])
            }),
    {
        if n1 == n2 {
            return None;
        }
        let ghost before = *self;
        assert(sorted(self.links(n1 as int)));
        assert(sorted(self.links(n2 as int)));
        match search(&self.connections[n1], n2) {
            Ok(pos) => {
                let edge_id: usize = self.connections[n1][pos].1;
                proof {
                    lemma_link(&before, n1, pos as int);
                }
                self.edges[edge_id].weight = self.edges[edge_id].weight.plus(weight);
                self.total_weight = self.total_weight.plus(weight);
                self.edges[edge_id].edge_data = edge_data;
                proof {
                    assert(before.edges@.len() == before.edges.len());
                    assert(self.connections == before.connections);
                    lemma_same_links(&before, self);
                    assert(self@ =~= before@.with_edge(n1, n2, edge_data, weight));
                    before@.lemma_with_edge(n1, n2, edge_data, weight);
                    assert forall|a: int| 0 <= a < self.connections.len() implies sorted(
                        #[trigger] self.links(a),
                    ) by {
                        assert(sorted(before.links(a)));
                    }
                }
                Some(edge_id)
            },
            Err(pos1) => {
                let edge_id: usize = self.edges.len();
                self.edges.push(EdgeInfo { edge_data, weight, id: edge_id });
                self.connections[n1].insert(pos1, (n2, edge_id));
                proof {
                    lemma_missing(&before, n1, n2);
                    assert(self.links(n2 as int) == before.links(n2 as int));
                }
                let pos2: usize = match search(&self.connections[n2], n1) {
                    Ok(pos) => pos,
                    Err(pos) => pos,
                };
                self.connections[n2].insert(pos2, (n1, edge_id));
                self.total_weight = self.total_weight.plus(weight);
                proof {
                    lemma_inserted(before.links(n1 as int), pos1 as int, n2, edge_id);
                    lemma_inserted(before.links(n2 as int), pos2 as int, n1, edge_id);
                    lemma_edge_inserted(&before, self, n1, n2, edge_id, pos1 as int, pos2 as int);
                    assert(self@ =~= before@.with_edge(n1, n2, edge_data, weight));
                    before@.lemma_with_edge(n1, n2, edge_data, weight);
                }
                Some(edge_id)
            },
        }
    }

    /// Adds to the weight inside a node.
    pub(crate) fn add_inner(&mut self, n: usize, weight: Binary32)
        requires
            old(self).wf(),
            n < old(self)@.nodes.len(),
        ensures
            final(self).wf(),
            final(self)@ == old(self)@.with_inner(n, weight),
    {
        let ghost before = *self;
        self.inner[n] = self.inner[n].plus(weight);
        self.total_weight = self.total_weight.plus(weight);
        proof {
            assert(self.connections == before.connections);
            lemma_same_links(&before, self);
            assert(self@ =~= before@.with_inner(n, weight));
            before@.lemma_other_data(self@);
            assert forall|a: int| 0 <= a < self.connections.len() implies sorted(
                #[trigger] self.links(a),
            ) by {
                assert(sorted(before.links(a)));
            }
        }
    }

    /// The edge between two nodes.
    pub fn try_get_edge_between(&self, n1: usize, n2: usize) -> (edge: Option<&EdgeInfo<E>>)
        requires
            self.wf(),
            n1 < self@.nodes.len(),
        ensures
            match edge {
                Some(e) => self@.edge_between(n1, n2) == Some(*e),
                None => self@.edge_between(n1, n2) is None,
            },
    {
        assert(sorted(self.links(n1 as int)));
        match search(&self.connections[n1], n2) {
            Ok(pos) => {
                proof {
                    lemma_link(self, n1, pos as int);
                }
                Some(&self.edges[self.connections[n1][pos].1])
            },
            Err(_) => None,
        }
    }
}

impl<N, E> Default for Graph<N, E> {
    fn default() -> (g: Self)
        ensures
            g.wf(),
            g@ == GraphView::<N, E>::empty(),
    {
        Self::new()
    }
}

} // verus!
