//! Taking a graph apart, and putting one together from its parts.

use crate::binary32::Binary32;
use crate::graph::{search, EdgeInfo, Graph, GraphView};
use vstd::prelude::*;

verus! {

/// `b` stands in the list of `a`.
pub open spec fn listed(lists: Seq<Vec<(usize, usize)>>, a: usize, b: usize) -> bool {
    a < lists.len() && exists|i: int| crate::graph::found_at(lists[a as int]@, b, i)
}

/// The number that stands with `b` in the list of `a`.
pub open spec fn listed_id(lists: Seq<Vec<(usize, usize)>>, a: usize, b: usize) -> usize {
    lists[a as int]@[choose|i: int| crate::graph::found_at(lists[a as int]@, b, i)].1
}

/// The edges between nodes that lists of neighbours say.
pub open spec fn listed_ids(lists: Seq<Vec<(usize, usize)>>) -> Map<(usize, usize), usize> {
    Map::new(
        |p: (usize, usize)| listed(lists, p.0, p.1),
        |p: (usize, usize)| listed_id(lists, p.0, p.1),
    )
}

/// The graph that the parts say.
pub open spec fn assembled<N, E>(
    nodes: Seq<N>,
    edges: Seq<EdgeInfo<E>>,
    lists: Seq<Vec<(usize, usize)>>,
    inner: Seq<Binary32>,
    total_weight: Binary32,
) -> GraphView<N, E> {
    GraphView { nodes, edges, ids: listed_ids(lists), inner, total_weight }
}

/// Each node has a sorted list of neighbours, and what the parts say is a graph.
pub open spec fn coherent<N, E>(
    nodes: Seq<N>,
    edges: Seq<EdgeInfo<E>>,
    lists: Seq<Vec<(usize, usize)>>,
    inner: Seq<Binary32>,
    total_weight: Binary32,
) -> bool {
    &&& lists.len() == nodes.len()
    &&& forall|a: int| 0 <= a < lists.len() ==> crate::graph::sorted((#[trigger] lists[a])@)
    &&& assembled(nodes, edges, lists, inner, total_weight).wf()
}

/// In a sorted list, a place where `b` stands gives the number that stands with it.
proof fn lemma_listed(lists: Seq<Vec<(usize, usize)>>, a: usize, i: int)
    requires
        a < lists.len(),
        crate::graph::sorted(lists[a as int]@),
        0 <= i < lists[a as int]@.len(),
    ensures
        listed_ids(lists).contains_key((a, lists[a as int]@[i].0)),
        listed_ids(lists)[(a, lists[a as int]@[i].0)] == lists[a as int]@[i].1,
{
    let list = lists[a as int]@;
    let b = list[i].0;
    assert(crate::graph::found_at(list, b, i));
    let j = choose|j: int| crate::graph::found_at(list, b, j);
    assert(i == j);
}

/// The edges between the nodes of a graph are those that its lists say.
proof fn lemma_listed_ids<N, E>(g: &Graph<N, E>)
    requires
        forall|a: int| 0 <= a < g.connections.len() ==> crate::graph::sorted(#[trigger] g.links(a)),
    ensures
        g@.ids == listed_ids(g.connections@),
{
    let lists = g.connections@;
    assert forall|a: usize, b: usize|
        g.linked(a, b) == listed(lists, a, b) && (g.linked(a, b) ==> g.link(a, b) == listed_id(
            lists,
            a,
            b,
        )) by {
        if a < lists.len() {
            assert(crate::graph::sorted(g.links(a as int)));
            if g.linked(a, b) {
                let i = choose|i: int| crate::graph::found_at(g.links(a as int), b, i);
                crate::graph::lemma_link(g, a, i);
                lemma_listed(lists, a, i);
            }
        }
    }
    assert(g@.ids =~= listed_ids(lists));
}

/// The list of `a` is in order up to place `k`, and names other nodes and edges that
/// there are.
spec fn sound_list(
    list: Seq<(usize, usize)>,
    a: int,
    nodes: int,
    edges: int,
    k: int,
) -> bool {
    &&& forall|i: int, j: int|
        0 <= i < j < k ==> (#[trigger] list[i]).0 < (#[trigger] list[j]).0
    &&& forall|i: int|
        0 <= i < k ==> (#[trigger] list[i]).0 < nodes && list[i].0 != a && list[i].1 < edges
}

/// Whether a list of neighbours is in order and names other nodes and edges that there
/// are.
fn check_list(list: &Vec<(usize, usize)>, a: usize, nodes: usize, edges: usize) -> (sound: bool)
    ensures
        sound == sound_list(list@, a as int, nodes as int, edges as int, list.len() as int),
{
    let mut k: usize = 0;
    while k < list.len()
        invariant
            k <= list.len(),
            sound_list(list@, a as int, nodes as int, edges as int, k as int),
        decreases list.len() - k,
    {
        let (b, id) = list[k];
        if b >= nodes || b == a || id >= edges {
            assert(list@[k as int] == (b, id));
            return false;
        }
        if k > 0 && list[k - 1].0 >= b {
            assert(!(list@[k - 1].0 < list@[k as int].0));
            return false;
        }
        assert forall|i: int, j: int| 0 <= i < j < k + 1 implies (#[trigger] list@[i]).0 < (
        #[trigger] list@[j]).0 by {
            if j == k && i < k - 1 {
                assert(list@[i].0 < list@[k - 1].0);
            }
        }
        k = k + 1;
    }
    true
}

/// The neighbours of `a` up to place `k` have `a` for a neighbour, by the same edge.
spec fn mutual(lists: Seq<Vec<(usize, usize)>>, a: int, k: int) -> bool {
    forall|i: int| 0 <= i < k ==> #[trigger] returned(lists, a, i)
}

/// The neighbour at place `i` of the list of `a` has `a` for a neighbour, by the same
/// edge.
spec fn returned(lists: Seq<Vec<(usize, usize)>>, a: int, i: int) -> bool {
    let (b, id) = lists[a]@[i];
    listed(lists, b, a as usize) && listed_id(lists, b, a as usize) == id
}

/// Whether the neighbours of `a` have it for a neighbour, by the same edge.
fn check_mutual(lists: &Vec<Vec<(usize, usize)>>, a: usize) -> (sound: bool)
    requires
        a < lists.len(),
        forall|c: int| 0 <= c < lists.len() ==> crate::graph::sorted((#[trigger] lists[c])@),
        forall|i: int| 0 <= i < lists[a as int].len() ==> (#[trigger] lists[a as int]@[i]).0 < lists.len(),
    ensures
        sound == mutual(lists@, a as int, lists[a as int].len() as int),
{
    let mut k: usize = 0;
    while k < lists[a].len()
        invariant
            a < lists.len(),
            k <= lists[a as int].len(),
            forall|c: int| 0 <= c < lists.len() ==> crate::graph::sorted((#[trigger] lists[c])@),
            forall|i: int|
                0 <= i < lists[a as int].len() ==> (#[trigger] lists[a as int]@[i]).0 < lists.len(),
            mutual(lists@, a as int, k as int),
        decreases lists[a as int].len() - k,
    {
        let (b, id) = lists[a][k];
        assert(lists[a as int]@[k as int].0 < lists.len());
        assert(crate::graph::sorted(lists[b as int]@));
        match search(&lists[b], a) {
            Ok(pos) => {
                proof {
                    lemma_listed(lists@, b, pos as int);
                }
                if lists[b][pos].1 != id {
                    assert(!returned(lists@, a as int, k as int));
                    return false;
                }
            },
            Err(_) => {
                assert(!listed(lists@, b, a));
                assert(!returned(lists@, a as int, k as int));
                return false;
            },
        }
        assert(returned(lists@, a as int, k as int));
        k = k + 1;
    }
    true
}

/// The places of the lists before place `k` of list `a`.
spec fn before(lists: Seq<Vec<(usize, usize)>>, a: int, k: int, c: int, i: int) -> bool {
    0 <= c < lists.len() && 0 <= i < lists[c]@.len() && (c < a || (c == a && i < k))
}

/// Place `i` of the list of `c` says that edge `id` leads to the later node `d`.
spec fn says(lists: Seq<Vec<(usize, usize)>>, c: int, i: int, d: usize, id: int) -> bool {
    lists[c]@[i] == (d, id as usize) && c < d
}

/// `owners` has the nodes of each edge that a place before place `k` of list `a` says,
/// and of no other.
spec fn owned(
    lists: Seq<Vec<(usize, usize)>>,
    owners: Seq<Option<(usize, usize)>>,
    a: int,
    k: int,
) -> bool {
    &&& forall|c: int, i: int| #[trigger]
        before(lists, a, k, c, i) && c < lists[c]@[i].0 ==> owners[lists[c]@[i].1 as int] == Some(
            (c as usize, lists[c]@[i].0),
        )
    &&& forall|id: int|
        0 <= id < owners.len() && (#[trigger] owners[id]) is Some ==> taken(lists, owners, a, k, id)
}

/// A place before place `k` of list `a` says the owner of edge `id`.
spec fn taken(
    lists: Seq<Vec<(usize, usize)>>,
    owners: Seq<Option<(usize, usize)>>,
    a: int,
    k: int,
    id: int,
) -> bool {
    exists|i: int| #[trigger]
        before(lists, a, k, (owners[id]->0).0 as int, i) && says(
            lists,
            (owners[id]->0).0 as int,
            i,
            (owners[id]->0).1,
            id,
        )
}

/// What the first passes over the lists have shown.
spec fn sound(lists: Seq<Vec<(usize, usize)>>, edges: int) -> bool {
    &&& forall|a: int|
        0 <= a < lists.len() ==> #[trigger] sound_list(
            lists[a]@,
            a,
            lists.len() as int,
            edges,
            lists[a]@.len() as int,
        )
    &&& forall|a: int| 0 <= a < lists.len() ==> crate::graph::sorted((#[trigger] lists[a])@)
    &&& forall|a: int|
        0 <= a < lists.len() ==> #[trigger] mutual(lists, a, lists[a]@.len() as int)
}

/// Coherent lists pass the first checks.
proof fn lemma_coherent_is_sound<N, E>(
    nodes: Seq<N>,
    edges: Seq<EdgeInfo<E>>,
    lists: Seq<Vec<(usize, usize)>>,
    inner: Seq<Binary32>,
    total_weight: Binary32,
)
    requires
        coherent(nodes, edges, lists, inner, total_weight),
        nodes.len() <= usize::MAX,
    ensures
        sound(lists, edges.len() as int),
{
    let g = assembled(nodes, edges, lists, inner, total_weight);
    assert forall|a: int| 0 <= a < lists.len() implies #[trigger] sound_list(
        lists[a]@,
        a,
        lists.len() as int,
        edges.len() as int,
        lists[a]@.len() as int,
    ) by {
        let list = lists[a]@;
        assert(crate::graph::sorted(list));
        assert forall|i: int| 0 <= i < list.len() implies (#[trigger] list[i]).0 < lists.len()
            && list[i].0 != a && list[i].1 < edges.len() by {
            lemma_listed(lists, a as usize, i);
            assert(g.ids.contains_key((a as usize, list[i].0)));
        }
    }
    assert forall|a: int| 0 <= a < lists.len() implies #[trigger] mutual(
        lists,
        a,
        lists[a]@.len() as int,
    ) by {
        let list = lists[a]@;
        assert(crate::graph::sorted(list));
        assert forall|i: int| 0 <= i < list.len() implies #[trigger] returned(lists, a, i) by {
            lemma_listed(lists, a as usize, i);
            assert(g.ids.contains_key((a as usize, list[i].0)));
            assert(g.ids.contains_key((list[i].0, a as usize)));
        }
    }
}

/// Where two places say the same edge for different pairs, the lists are not coherent.
proof fn lemma_conflict<N, E>(
    nodes: Seq<N>,
    edges: Seq<EdgeInfo<E>>,
    lists: Seq<Vec<(usize, usize)>>,
    inner: Seq<Binary32>,
    total_weight: Binary32,
    a: usize,
    k: int,
    c: usize,
    i: int,
)
    requires
        sound(lists, edges.len() as int),
        a < lists.len(),
        0 <= k < lists[a as int]@.len(),
        a < lists[a as int]@[k].0,
        before(lists, a as int, k, c as int, i),
        c < lists[c as int]@[i].0,
        lists[c as int]@[i].1 == lists[a as int]@[k].1,
    ensures
        !coherent(nodes, edges, lists, inner, total_weight),
{
    let g = assembled(nodes, edges, lists, inner, total_weight);
    let b = lists[a as int]@[k].0;
    let d = lists[c as int]@[i].0;
    assert(crate::graph::sorted(lists[a as int]@));
    assert(crate::graph::sorted(lists[c as int]@));
    lemma_listed(lists, a, k);
    lemma_listed(lists, c, i);
    assert(g.ids.contains_key((a, b)));
    assert(g.ids.contains_key((c, d)));
    assert(g.ids[(a, b)] == g.ids[(c, d)]);
    if a == c {
        assert(d < b);
    }
}

/// Where every edge has one owner and its own number, the parts are coherent.
proof fn lemma_owned_is_coherent<N, E>(
    nodes: Seq<N>,
    edges: Seq<EdgeInfo<E>>,
    lists: Seq<Vec<(usize, usize)>>,
    inner: Seq<Binary32>,
    total_weight: Binary32,
    owners: Seq<Option<(usize, usize)>>,
)
    requires
        nodes.len() == lists.len(),
        nodes.len() == inner.len(),
        nodes.len() <= usize::MAX,
        edges.len() <= usize::MAX,
        sound(lists, edges.len() as int),
        owners.len() == edges.len(),
        owned(lists, owners, lists.len() as int, 0),
        forall|id: int| 0 <= id < owners.len() ==> (#[trigger] owners[id]) is Some,
        forall|id: int| 0 <= id < edges.len() ==> (#[trigger] edges[id]).id == id,
    ensures
        coherent(nodes, edges, lists, inner, total_weight),
{
    let g = assembled(nodes, edges, lists, inner, total_weight);
    let n = lists.len() as int;
    assert forall|a: usize, b: usize| #[trigger] g.ids.contains_key((a, b)) implies {
        &&& a < g.nodes.len()
        &&& b < g.nodes.len()
        &&& a != b
        &&& g.ids[(a, b)] < g.edges.len()
        &&& g.ids.contains_key((b, a))
        &&& g.ids[(b, a)] == g.ids[(a, b)]
        &&& owners[g.ids[(a, b)] as int] == Some(
            if a < b {
                (a, b)
            } else {
                (b, a)
            },
        )
    } by {
        assert(listed(lists, a, b));
        let list = lists[a as int]@;
        let i = choose|i: int| crate::graph::found_at(list, b, i);
        assert(sound_list(list, a as int, n, edges.len() as int, list.len() as int));
        assert(crate::graph::sorted(list));
        lemma_listed(lists, a, i);
        assert(mutual(lists, a as int, list.len() as int));
        assert(returned(lists, a as int, i));
        assert(list[i].0 == b && list[i].0 < n);
        if a < b {
            assert(before(lists, n, 0, a as int, i));
        } else {
            let back = lists[b as int]@;
            let j = choose|j: int| crate::graph::found_at(back, a, j);
            assert(crate::graph::sorted(back));
            lemma_listed(lists, b, j);
            assert(before(lists, n, 0, b as int, j));
        }
    }
    assert forall|id: int| 0 <= id < g.edges.len() implies #[trigger] g.joins(id) by {
        assert(owners[id] is Some);
        let (c, d) = owners[id]->0;
        assert(taken(lists, owners, n, 0, id));
        let i = choose|i: int| #[trigger]
            before(lists, n, 0, c as int, i) && says(lists, c as int, i, d, id);
        assert(crate::graph::sorted(lists[c as int]@));
        lemma_listed(lists, c, i);
        assert(g.ids.contains_key((c, d)));
    }
}

/// Where an edge has no owner, the parts are not coherent.
proof fn lemma_unowned<N, E>(
    nodes: Seq<N>,
    edges: Seq<EdgeInfo<E>>,
    lists: Seq<Vec<(usize, usize)>>,
    inner: Seq<Binary32>,
    total_weight: Binary32,
    owners: Seq<Option<(usize, usize)>>,
    id: int,
)
    requires
        nodes.len() <= usize::MAX,
        owners.len() == edges.len(),
        owned(lists, owners, lists.len() as int, 0),
        0 <= id < owners.len(),
        owners[id] is None,
    ensures
        !coherent(nodes, edges, lists, inner, total_weight),
{
    let g = assembled(nodes, edges, lists, inner, total_weight);
    let n = lists.len() as int;
    if coherent(nodes, edges, lists, inner, total_weight) {
        assert(g.joins(id));
        let (a, b) = choose|a: usize, b: usize| #[trigger]
            g.ids.contains_key((a, b)) && g.ids[(a, b)] == id;
        assert(g.ids.contains_key((b, a)));
        let (c, d) = if a < b {
            (a, b)
        } else {
            (b, a)
        };
        assert(g.ids.contains_key((c, d)) && g.ids[(c, d)] == id);
        assert(listed(lists, c, d));
        let i = choose|i: int| crate::graph::found_at(lists[c as int]@, d, i);
        assert(crate::graph::sorted(lists[c as int]@));
        lemma_listed(lists, c, i);
        assert(before(lists, n, 0, c as int, i));
    }
}

/// Moving on by one place.
proof fn lemma_owned_step(
    lists: Seq<Vec<(usize, usize)>>,
    edges: int,
    owners: Seq<Option<(usize, usize)>>,
    a: int,
    k: int,
)
    requires
        sound(lists, edges),
        owners.len() == edges,
        0 <= a < lists.len() <= usize::MAX,
        0 <= k < lists[a]@.len(),
        owned(lists, owners, a, k),
        a < lists[a]@[k].0 ==> owners[lists[a]@[k].1 as int] is None,
    ensures
        ({
            let (b, id) = lists[a]@[k];
            owned(
                lists,
                if a < b {
                    owners.update(id as int, Some((a as usize, b)))
                } else {
                    owners
                },
                a,
                k + 1,
            )
        }),
{
    let (b, id) = lists[a]@[k];
    let after = if a < b {
        owners.update(id as int, Some((a as usize, b)))
    } else {
        owners
    };
    assert(sound_list(lists[a]@, a, lists.len() as int, edges, lists[a]@.len() as int));
    assert(id < edges);
    assert forall|c: int, i: int| #[trigger]
        before(lists, a, k + 1, c, i) && c < lists[c]@[i].0 implies after[lists[c]@[i].1 as int]
        == Some((c as usize, lists[c]@[i].0)) by {
        if c != a || i != k {
            assert(before(lists, a, k, c, i));
            assert(sound_list(lists[c]@, c, lists.len() as int, edges, lists[c]@.len() as int));
        }
    }
    assert forall|other: int| 0 <= other < after.len() && (
    #[trigger] after[other]) is Some implies taken(lists, after, a, k + 1, other) by {
        if a < b && other == id {
            assert(after[other] == Some((a as usize, b)));
            let c = (after[other]->0).0 as int;
            assert(before(lists, a, k + 1, c, k));
            assert(says(lists, c, k, (after[other]->0).1, other));
        } else {
            assert(owners[other] is Some);
            assert(after[other] == owners[other]);
            assert(taken(lists, owners, a, k, other));
            let c = (owners[other]->0).0 as int;
            let i = choose|i: int| #[trigger]
                before(lists, a, k, c, i) && says(lists, c, i, (owners[other]->0).1, other);
            assert(before(lists, a, k + 1, c, i));
        }
    }
}

/// The end of one list is the start of the next.
proof fn lemma_owned_next(
    lists: Seq<Vec<(usize, usize)>>,
    owners: Seq<Option<(usize, usize)>>,
    a: int,
)
    requires
        0 <= a < lists.len(),
        owned(lists, owners, a, lists[a]@.len() as int),
    ensures
        owned(lists, owners, a + 1, 0),
{
    assert forall|c: int, i: int| #[trigger]
        before(lists, a + 1, 0, c, i) && c < lists[c]@[i].0 implies owners[lists[c]@[i].1 as int]
        == Some((c as usize, lists[c]@[i].0)) by {
        assert(before(lists, a, lists[a]@.len() as int, c, i));
    }
    assert forall|id: int| 0 <= id < owners.len() && (
    #[trigger] owners[id]) is Some implies taken(lists, owners, a + 1, 0, id) by {
        assert(taken(lists, owners, a, lists[a]@.len() as int, id));
        let c = (owners[id]->0).0 as int;
        let i = choose|i: int| #[trigger]
            before(lists, a, lists[a]@.len() as int, c, i) && says(
                lists,
                c,
                i,
                (owners[id]->0).1,
                id,
            );
        assert(before(lists, a + 1, 0, c, i));
    }
}

impl<N, E> Graph<N, E> {
    /// The nodes, the edges, the neighbours of each node with the numbers of the edges to
    /// them, the weight inside each node, and the total weight.
    pub fn into_parts(self) -> (parts: (
        Vec<N>,
        Vec<EdgeInfo<E>>,
        Vec<Vec<(usize, usize)>>,
        Vec<Binary32>,
        Binary32,
    ))
        requires
            self.wf(),
        ensures
            coherent(parts.0@, parts.1@, parts.2@, parts.3@, parts.4),
            self@ == assembled(parts.0@, parts.1@, parts.2@, parts.3@, parts.4),
    {
        proof {
            lemma_listed_ids(&self);
            assert forall|a: int| 0 <= a < self.connections.len() implies crate::graph::sorted(
                (#[trigger] self.connections@[a])@,
            ) by {
                assert(crate::graph::sorted(self.links(a)));
            }
        }
        (self.nodes, self.edges, self.connections, self.inner, self.total_weight)
    }

    /// The graph that the parts say, if they say one.
    pub fn from_parts(
        nodes: Vec<N>,
        edges: Vec<EdgeInfo<E>>,
        connections: Vec<Vec<(usize, usize)>>,
        inner: Vec<Binary32>,
        total_weight: Binary32,
    ) -> (graph: Option<Self>)
        ensures
            match graph {
                Some(g) => {
                    &&& coherent(nodes@, edges@, connections@, inner@, total_weight)
                    &&& g.wf()
                    &&& g@ == assembled(nodes@, edges@, connections@, inner@, total_weight)
                },
                None => !coherent(nodes@, edges@, connections@, inner@, total_weight),
            },
    {
        if !check_parts(&nodes, &edges, &connections, &inner, Ghost(total_weight)) {
            return None;
        }
        let g = Self { nodes, edges, connections, inner, total_weight };
        proof {
            assert forall|a: int| 0 <= a < g.connections.len() implies crate::graph::sorted(
                #[trigger] g.links(a),
            ) by {
                assert(crate::graph::sorted(g.connections@[a]@));
            }
            lemma_listed_ids(&g);
        }
        Some(g)
    }
}

/// Whether the parts say a graph.
fn check_parts<N, E>(
    nodes: &Vec<N>,
    edges: &Vec<EdgeInfo<E>>,
    connections: &Vec<Vec<(usize, usize)>>,
    inner: &Vec<Binary32>,
    Ghost(total_weight): Ghost<Binary32>,
) -> (sound: bool)
    ensures
        sound == coherent(nodes@, edges@, connections@, inner@, total_weight),
{
    if connections.len() != nodes.len() || inner.len() != nodes.len() {
        return false;
    }
    if !check_lists(connections, edges.len()) {
        proof {
            if coherent(nodes@, edges@, connections@, inner@, total_weight) {
                lemma_coherent_is_sound(nodes@, edges@, connections@, inner@, total_weight);
            }
        }
        return false;
    }
    let mut owners: Vec<Option<(usize, usize)>> = Vec::new();
    while owners.len() < edges.len()
        invariant
            owners.len() <= edges.len(),
            forall|id: int| 0 <= id < owners.len() ==> (#[trigger] owners[id]) is None,
        decreases edges.len() - owners.len(),
    {
        owners.push(None);
    }
    let mut a: usize = 0;
    while a < connections.len()
        invariant
            sound(connections@, edges.len() as int),
            a <= connections.len(),
            owners.len() == edges.len(),
            owned(connections@, owners@, a as int, 0),
        decreases connections.len() - a,
    {
        let mut k: usize = 0;
        while k < connections[a].len()
            invariant
                sound(connections@, edges.len() as int),
                a < connections.len(),
                k <= connections[a as int].len(),
                owners.len() == edges.len(),
                owned(connections@, owners@, a as int, k as int),
            decreases connections[a as int].len() - k,
        {
            let (b, id) = connections[a][k];
            proof {
                let list = connections@[a as int]@;
                assert(sound_list(
                    list,
                    a as int,
                    connections.len() as int,
                    edges.len() as int,
                    list.len() as int,
                ));
                assert(list[k as int].1 < edges.len());
            }
            if a < b {
                if owners[id].is_some() {
                    proof {
                        assert(owners@[id as int] is Some);
                        assert(taken(connections@, owners@, a as int, k as int, id as int));
                        let c = (owners@[id as int]->0).0;
                        let i = choose|i: int| #[trigger]
                            before(connections@, a as int, k as int, c as int, i) && says(
                                connections@,
                                c as int,
                                i,
                                (owners@[id as int]->0).1,
                                id as int,
                            );
                        lemma_conflict(
                            nodes@,
                            edges@,
                            connections@,
                            inner@, total_weight,
                            a,
                            k as int,
                            c,
                            i,
                        );
                    }
                    return false;
                }
                proof {
                    lemma_owned_step(
                        connections@,
                        edges.len() as int,
                        owners@,
                        a as int,
                        k as int,
                    );
                }
                owners.set(id, Some((a, b)));
            } else {
                proof {
                    lemma_owned_step(
                        connections@,
                        edges.len() as int,
                        owners@,
                        a as int,
                        k as int,
                    );
                }
            }
            k = k + 1;
        }
        proof {
            lemma_owned_next(connections@, owners@, a as int);
        }
        a = a + 1;
    }
    let mut id: usize = 0;
    while id < edges.len()
        invariant
            id <= edges.len(),
            owners.len() == edges.len(),
            owned(connections@, owners@, connections.len() as int, 0),
            forall|e: int| 0 <= e < id ==> (#[trigger] owners[e]) is Some,
            forall|e: int| 0 <= e < id ==> (#[trigger] edges[e]).id == e,
        decreases edges.len() - id,
    {
        if owners[id].is_none() {
            proof {
                assert(nodes@.len() == nodes.len());
                lemma_unowned(
                    nodes@,
                    edges@,
                    connections@,
                    inner@, total_weight,
                    owners@,
                    id as int,
                );
            }
            return false;
        }
        if edges[id].id != id {
            proof {
                let g = assembled(nodes@, edges@, connections@, inner@, total_weight);
                assert(g.edges[id as int].id != id);
            }
            return false;
        }
        id = id + 1;
    }
    proof {
        lemma_owned_is_coherent(nodes@, edges@, connections@, inner@, total_weight, owners@);
    }
    true
}

/// Whether the lists are in order, name other nodes and edges that there are, and agree
/// with each other.
fn check_lists(lists: &Vec<Vec<(usize, usize)>>, edges: usize) -> (passed: bool)
    ensures
        passed == sound(lists@, edges as int),
{
    let mut a: usize = 0;
    while a < lists.len()
        invariant
            a <= lists.len(),
            forall|c: int|
                0 <= c < a ==> #[trigger] sound_list(
                    lists@[c]@,
                    c,
                    lists.len() as int,
                    edges as int,
                    lists@[c]@.len() as int,
                ),
        decreases lists.len() - a,
    {
        if !check_list(&lists[a], a, lists.len(), edges) {
            assert(!sound_list(
                lists@[a as int]@,
                a as int,
                lists.len() as int,
                edges as int,
                lists@[a as int]@.len() as int,
            ));
            return false;
        }
        a = a + 1;
    }
    proof {
        assert forall|c: int| 0 <= c < lists.len() implies crate::graph::sorted(
            (#[trigger] lists@[c])@,
        ) by {
            assert(sound_list(
                lists@[c]@,
                c,
                lists.len() as int,
                edges as int,
                lists@[c]@.len() as int,
            ));
        }
    }
    let mut c: usize = 0;
    while c < lists.len()
        invariant
            c <= lists.len(),
            forall|d: int|
                0 <= d < lists.len() ==> #[trigger] sound_list(
                    lists@[d]@,
                    d,
                    lists.len() as int,
                    edges as int,
                    lists@[d]@.len() as int,
                ),
            forall|d: int| 0 <= d < lists.len() ==> crate::graph::sorted((#[trigger] lists@[d])@),
            forall|d: int| 0 <= d < c ==> #[trigger] mutual(lists@, d, lists@[d]@.len() as int),
        decreases lists.len() - c,
    {
        assert(sound_list(
            lists@[c as int]@,
            c as int,
            lists.len() as int,
            edges as int,
            lists@[c as int]@.len() as int,
        ));
        if !check_mutual(lists, c) {
            assert(!mutual(lists@, c as int, lists@[c as int]@.len() as int));
            return false;
        }
        c = c + 1;
    }
    true
}

} // verus!
