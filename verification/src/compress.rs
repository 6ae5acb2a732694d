//! Making a graph of communities out of a graph of nodes.

use crate::binary32::Binary32;
use crate::community::Community;
use crate::graph::{Graph, GraphView};
use crate::tables::{
    assignments_get, assignments_insert, assignments_new, set_members, set_new, CommunityAssignments,
    CommunityId, NodeSet,
};
use vstd::prelude::*;

verus! {

/// The set of `parts` that holds `node`.
pub open spec fn place(parts: Seq<Set<usize>>, node: usize) -> int {
    choose|i: int| 0 <= i < parts.len() && (#[trigger] parts[i]).contains(node)
}

/// In a partition, a node has one place.
pub(crate) proof fn lemma_place(parts: Seq<Set<usize>>, all: Set<usize>, i: int, node: usize)
    requires
        crate::refine::partitions(parts, all),
        0 <= i < parts.len(),
        parts[i].contains(node),
    ensures
        place(parts, node) == i,
{
    let j = place(parts, node);
    if j != i {
        assert(parts[i].disjoint(parts[j]));
    }
}

/// `homes` gives each node of the first `count` sets its place.
spec fn housed(parts: Seq<Set<usize>>, count: int, homes: Map<usize, CommunityId>) -> bool {
    forall|i: int, node: usize|
        0 <= i < count && #[trigger] parts[i].contains(node) ==> homes.contains_key(node)
            && homes[node] == i
}

/// `homes` gives `node` its place.
pub open spec fn at_home(
    homes: Map<usize, CommunityId>,
    parts: Seq<Set<usize>>,
    node: usize,
) -> bool {
    homes.contains_key(node) && homes[node] == place(parts, node) && homes[node] < parts.len()
}

/// Noting one more set.
proof fn lemma_housed(
    parts: Seq<Set<usize>>,
    all: Set<usize>,
    count: int,
    homes: Map<usize, CommunityId>,
)
    requires
        crate::refine::partitions(parts, all),
        0 <= count < parts.len(),
        count <= u32::MAX,
        housed(parts, count, homes),
    ensures
        housed(parts, count + 1, noted(homes, parts[count], count as u32)),
{
    let after = noted(homes, parts[count], count as u32);
    assert forall|i: int, node: usize|
        0 <= i < count + 1 && #[trigger] parts[i].contains(node) implies after.contains_key(node)
        && after[node] == i by {
        if i < count {
            assert(parts[i].disjoint(parts[count]));
            assert(!parts[count].contains(node));
        }
    }
}

/// Once all sets of a partition are noted, every node has its place.
proof fn lemma_all_housed(parts: Seq<Set<usize>>, n: nat, homes: Map<usize, CommunityId>)
    requires
        crate::refine::partitions(parts, crate::refine::numbers(n)),
        housed(parts, parts.len() as int, homes),
    ensures
        forall|node: usize| node < n ==> #[trigger] at_home(homes, parts, node),
{
    assert forall|node: usize| node < n implies #[trigger] at_home(homes, parts, node) by {
        assert(crate::refine::numbers(n).contains(node));
        let i = choose|i: int| 0 <= i < parts.len() && (#[trigger] parts[i]).contains(node);
        lemma_place(parts, crate::refine::numbers(n), i, node);
    }
}

/// The graph with the given nodes and nothing else.
pub open spec fn nodes_alone(nodes: Seq<Community>) -> GraphView<Community, ()> {
    GraphView {
        nodes,
        inner: Seq::new(nodes.len(), |i: int| Binary32 { bits: 0 }),
        ..GraphView::empty()
    }
}

impl<N, E> GraphView<N, E> {
    /// `g` with the edges from `i` to the nodes after it and below `b`: those that leave
    /// their set become edges between the sets, and the others weight inside theirs.
    pub open spec fn bridged_to(
        self,
        parts: Seq<Set<usize>>,
        g: GraphView<Community, ()>,
        i: usize,
        b: int,
    ) -> GraphView<Community, ()>
        decreases b,
    {
        if b <= i + 1 {
            g
        } else {
            let rest = self.bridged_to(parts, g, i, b - 1);
            let j = (b - 1) as usize;
            if !self.adjacent(i, j) {
                rest
            } else if place(parts, i) != place(parts, j) {
                rest.with_edge(
                    place(parts, i) as usize,
                    place(parts, j) as usize,
                    (),
                    self.weight(i, j),
                )
            } else {
                rest.with_inner(place(parts, i) as usize, self.weight(i, j))
            }
        }
    }

    /// `g` with the weight inside the nodes below `i`, and with all edges whose smaller
    /// node is below `i`.
    pub open spec fn bridged_below(
        self,
        parts: Seq<Set<usize>>,
        g: GraphView<Community, ()>,
        i: int,
    ) -> GraphView<Community, ()>
        decreases i,
    {
        if i <= 0 {
            g
        } else {
            let node = (i - 1) as usize;
            self.bridged_to(
                parts,
                self.bridged_below(parts, g, i - 1).with_inner(
                    place(parts, node) as usize,
                    self.inner[node as int],
                ),
                node,
                self.nodes.len() as int,
            )
        }
    }

    /// The graph of communities that has `nodes` for its nodes: each edge between two
    /// sets of `parts` becomes an edge between their communities, or adds to it, and
    /// the weight inside a set becomes weight inside its community.
    pub open spec fn bridged(self, parts: Seq<Set<usize>>, nodes: Seq<Community>) -> GraphView<
        Community,
        (),
    > {
        self.bridged_below(
            parts,
            nodes_alone(nodes),
            self.nodes.len() as int,
        )
    }

    proof fn lemma_bridge_gap(
        self,
        parts: Seq<Set<usize>>,
        g: GraphView<Community, ()>,
        i: usize,
        low: int,
        high: int,
    )
        requires
            0 <= low <= high,
            forall|b: int| low <= b < high ==> !#[trigger] self.adjacent(i, b as usize),
        ensures
            self.bridged_to(parts, g, i, low) == self.bridged_to(parts, g, i, high),
        decreases high,
    {
        if low < high {
            self.lemma_bridge_gap(parts, g, i, low, high - 1);
            assert(!self.adjacent(i, (high - 1) as usize));
        }
    }
}

/// `homes` with `index` noted for each member of `set`.
pub open spec fn noted(
    homes: Map<usize, CommunityId>,
    set: Set<usize>,
    index: CommunityId,
) -> Map<usize, CommunityId> {
    homes.union_prefer_right(Map::new(|node: usize| set.contains(node), |node: usize| index))
}

/// Notes the place of each member of a community.
fn house(homes: &mut CommunityAssignments, community: &NodeSet, index: CommunityId)
    ensures
        final(homes)@ == noted(old(homes)@, community@, index),
{
    let members: Vec<usize> = set_members(community);
    let ghost before = homes@;
    let ghost mut seen: Set<usize> = Set::empty();
    assert(homes@ =~= noted(before, seen, index));
    let mut t: usize = 0;
    while t < members.len()
        invariant
            t <= members.len(),
            homes@ == noted(before, seen, index),
            seen == members@.take(t as int).to_set(),
        decreases members.len() - t,
    {
        let node: usize = members[t];
        let _ = assignments_insert(homes, node, index);
        proof {
            assert(homes@ =~= noted(before, seen.insert(node), index));
            let shorter = members@.take(t as int);
            let longer = members@.take(t + 1);
            assert(longer =~= shorter.push(node));
            assert forall|other: usize|
                longer.to_set().contains(other) == shorter.to_set().insert(node).contains(other) by {
                if shorter.contains(other) {
                    let j = choose|j: int| 0 <= j < shorter.len() && shorter[j] == other;
                    assert(longer[j] == other);
                }
                if other == node {
                    assert(longer[t as int] == other);
                }
                if longer.contains(other) && other != node {
                    let j = choose|j: int| 0 <= j < longer.len() && longer[j] == other;
                    assert(shorter[j] == other);
                }
            }
            seen = seen.insert(node);
            assert(seen =~= longer.to_set());
        }
        t = t + 1;
    }
    assert(members@.take(t as int) =~= members@);
}

/// Adds to `new_graph` the edges of `graph` that join different communities, and the
/// weight inside the communities.
fn bridge<N, E>(
    graph: &Graph<N, E>,
    homes: &CommunityAssignments,
    new_graph: &mut Graph<Community, ()>,
    Ghost(parts): Ghost<Seq<Set<usize>>>,
)
    requires
        graph.wf(),
        old(new_graph).wf(),
        old(new_graph)@.nodes.len() == parts.len(),
        forall|node: usize|
            node < graph@.nodes.len() ==> #[trigger] at_home(homes@, parts, node),
    ensures
        final(new_graph).wf(),
        final(new_graph)@.nodes == old(new_graph)@.nodes,
        final(new_graph)@ == graph@.bridged_below(
            parts,
            old(new_graph)@,
            graph@.nodes.len() as int,
        ),
{
    let ghost view = graph@;
    let ghost start = new_graph@;
    let node_count: usize = graph.count_nodes();
    let mut i: usize = 0;
    while i < node_count
        invariant
            graph.wf(),
            view == graph@,
            node_count == view.nodes.len(),
            new_graph.wf(),
            new_graph@.nodes == start.nodes,
            start.nodes.len() == parts.len(),
            forall|node: usize| node < view.nodes.len() ==> #[trigger] at_home(homes@, parts, node),
            i <= node_count,
            new_graph@ == view.bridged_below(parts, start, i as int),
        decreases node_count - i,
    {
        assert(at_home(homes@, parts, i));
        let assign_i: CommunityId = assignments_get(homes, i).unwrap();
        new_graph.add_inner(assign_i as usize, graph.inner[i]);
        let ghost row = new_graph@;
        let count: usize = graph.connections[i].len();
        let mut k: usize = 0;
        let ghost mut done: int = 0;
        while k < count
            invariant
                graph.wf(),
                view == graph@,
                node_count == view.nodes.len(),
                i < node_count,
                new_graph.wf(),
                new_graph@.nodes == start.nodes,
                start.nodes.len() == parts.len(),
                forall|node: usize|
                    node < view.nodes.len() ==> #[trigger] at_home(homes@, parts, node),
                assign_i == homes@[i],
                count == graph.links(i as int).len(),
                k <= count,
                0 <= done <= node_count,
                k == 0 ==> done == 0,
                0 < k ==> done == graph.links(i as int)[k - 1].0 + 1,
                new_graph@ == view.bridged_to(parts, row, i, done),
            decreases count - k,
        {
            let (j, edge_id) = graph.connections[i][k];
            proof {
                crate::graph::lemma_link(graph, i, k as int);
                assert(crate::modularity::sorted_list(graph, i as int));
                assert(view.adjacent(i, j));
                assert forall|b: int| done <= b < j implies !#[trigger] view.adjacent(
                    i,
                    b as usize,
                ) by {
                    crate::modularity::lemma_gap(graph, i, k as int, b);
                }
                view.lemma_bridge_gap(parts, row, i, done, j as int);
                assert(at_home(homes@, parts, i));
                assert(at_home(homes@, parts, j));
                done = j + 1;
            }
            if j > i {
                let assign_j: CommunityId = assignments_get(homes, j).unwrap();
                let weight: Binary32 = graph.edges[edge_id].weight;
                if assign_i != assign_j {
                    let _ = new_graph.add_edge(assign_i as usize, assign_j as usize, (), weight);
                } else {
                    new_graph.add_inner(assign_i as usize, weight);
                }
            }
            k = k + 1;
        }
        proof {
            assert forall|b: int| done <= b < node_count implies !#[trigger] view.adjacent(
                i,
                b as usize,
            ) by {
                crate::modularity::lemma_gap(graph, i, k as int, b);
            }
            view.lemma_bridge_gap(parts, row, i, done, node_count as int);
        }
        i = i + 1;
    }
}

/// The communities of nodes that `sets` are.
pub open spec fn first_level(sets: Seq<NodeSet>) -> Seq<Community> {
    Seq::new(sets.len(), |i: int| Community::L1Community(sets[i]))
}

/// The graph of communities that a partition of the nodes of `graph` makes.
pub fn compress_l1<N, E>(graph: &Graph<N, E>, relabeled_assignments: Vec<NodeSet>) -> (new_graph: Graph<
    Community,
    (),
>)
    requires
        graph.wf(),
        relabeled_assignments@.len() <= u32::MAX + 1,
        crate::refine::partitions(
            crate::refine::views(relabeled_assignments@),
            crate::refine::numbers(graph@.nodes.len()),
        ),
    ensures
        new_graph.wf(),
        new_graph@ == graph@.bridged(
            crate::refine::views(relabeled_assignments@),
            first_level(relabeled_assignments@),
        ),
{
    let ghost sets = relabeled_assignments@;
    let ghost parts = crate::refine::views(sets);
    let ghost all = crate::refine::numbers(graph@.nodes.len());
    proof {
        crate::refine::lemma_numbers(graph@.nodes.len());
        crate::refine::lemma_partition_size(parts, all);
    }
    let mut communities: Vec<NodeSet> = relabeled_assignments;
    let mut node_to_community: CommunityAssignments = assignments_new();
    let mut new_graph: Graph<Community, ()> = Graph::new();
    let mut i: usize = 0;
    while i < communities.len()
        invariant
            communities.len() == sets.len(),
            sets.len() == parts.len(),
            parts == crate::refine::views(sets),
            crate::refine::partitions(parts, all),
            parts.len() <= u32::MAX + 1,
            i <= communities.len(),
            forall|j: int| i <= j < sets.len() ==> #[trigger] communities@[j] == sets[j],
            housed(parts, i as int, node_to_community@),
            new_graph.wf(),
            new_graph@ == nodes_alone(first_level(sets).take(i as int)),
        decreases communities.len() - i,
    {
        let mut community: NodeSet = set_new();
        assert(communities@[i as int] == sets[i as int]);
        assert(parts[i as int] == sets[i as int]@);
        std::mem::swap(&mut community, &mut communities[i]);
        proof {
            lemma_housed(parts, all, i as int, node_to_community@);
        }
        house(&mut node_to_community, &community, i as u32);
        let _ = new_graph.add_node(Community::L1Community(community));
        assert(first_level(sets).take(i + 1) =~= first_level(sets).take(i as int).push(
            Community::L1Community(sets[i as int]),
        ));
        assert(new_graph@ =~= nodes_alone(first_level(sets).take(i + 1)));
        i = i + 1;
    }
    proof {
        lemma_all_housed(parts, graph@.nodes.len(), node_to_community@);
        assert(first_level(sets).take(i as int) =~= first_level(sets));
    }
    bridge(graph, &node_to_community, &mut new_graph, Ghost(parts));
    new_graph
}

/// `community` is made of the `nodes` numbered in `order`: the only one, or all of them
/// together.
pub open spec fn combines(nodes: Seq<Community>, order: Seq<usize>, community: Community) -> bool {
    if order.len() == 1 {
        community == nodes[order[0] as int]
    } else {
        community matches Community::LNCommunity(communities) && communities@ == order.map_values(
            |c: usize| nodes[c as int],
        )
    }
}

/// `community` is made of the `nodes` whose numbers are in `part`.
pub open spec fn merges(nodes: Seq<Community>, part: Set<usize>, community: Community) -> bool {
    exists|order: Seq<usize>| #[trigger]
        crate::tables::enumerates(order, part) && combines(nodes, order, community)
}

/// `communities` are made of the `nodes` by the sets of numbers `parts`, one by one.
pub open spec fn next_level(
    nodes: Seq<Community>,
    parts: Seq<Set<usize>>,
    communities: Seq<Community>,
) -> bool {
    &&& communities.len() == parts.len()
    &&& forall|i: int|
        0 <= i < parts.len() ==> #[trigger] merges(nodes, parts[i], communities[i])
}

/// Takes the communities numbered in `members` out of `nodes`.
fn take_out(nodes: &mut Vec<Community>, members: &Vec<usize>) -> (taken: Vec<Community>)
    requires
        members@.no_duplicates(),
        forall|k: int| 0 <= k < members.len() ==> #[trigger] members[k] < old(nodes).len(),
    ensures
        taken@ == members@.map_values(|c: usize| old(nodes)@[c as int]),
        final(nodes).len() == old(nodes).len(),
        forall|c: usize|
            c < old(nodes).len() && !#[trigger] members@.contains(c) ==> final(nodes)@[c as int]
                == old(nodes)@[c as int],
{
    let ghost before = nodes@;
    let mut taken: Vec<Community> = Vec::new();
    let mut k: usize = 0;
    while k < members.len()
        invariant
            members@.no_duplicates(),
            forall|j: int| 0 <= j < members.len() ==> #[trigger] members[j] < before.len(),
            k <= members.len(),
            nodes.len() == before.len(),
            taken@ =~= members@.take(k as int).map_values(|c: usize| before[c as int]),
            forall|c: usize|
                c < before.len() && !#[trigger] members@.take(k as int).contains(c)
                    ==> nodes@[c as int] == before[c as int],
        decreases members.len() - k,
    {
        let c: usize = members[k];
        let mut x: Community = Community::LNCommunity(Vec::new());
        proof {
            let here = members@.take(k as int);
            let there = members@.take(k + 1);
            assert(!here.contains(c));
            assert(there =~= here.push(c));
            assert forall|d: usize| !#[trigger] there.contains(d) implies !here.contains(d) && d != c by {
                assert(there[k as int] == c);
                if here.contains(d) {
                    let j = choose|j: int| 0 <= j < here.len() && here[j] == d;
                    assert(there[j] == d);
                }
            }
        }
        std::mem::swap(&mut x, &mut nodes[c]);
        taken.push(x);
        k = k + 1;
    }
    assert(members@.take(k as int) =~= members@);
    taken
}

/// A graph that differs only in the data of its nodes is bridged alike.
proof fn lemma_same_bridges<E>(
    g: GraphView<Community, E>,
    h: GraphView<Community, E>,
    parts: Seq<Set<usize>>,
    start: GraphView<Community, ()>,
    i: int,
)
    requires
        g.nodes.len() == h.nodes.len(),
        g.edges == h.edges,
        g.ids == h.ids,
        g.inner == h.inner,
    ensures
        g.bridged_below(parts, start, i) == h.bridged_below(parts, start, i),
    decreases i,
{
    if 0 < i {
        lemma_same_bridges(g, h, parts, start, i - 1);
        let node = (i - 1) as usize;
        lemma_same_row(
            g,
            h,
            parts,
            g.bridged_below(parts, start, i - 1).with_inner(
                place(parts, node) as usize,
                g.inner[node as int],
            ),
            node,
            g.nodes.len() as int,
        );
    }
}

proof fn lemma_same_row<E>(
    g: GraphView<Community, E>,
    h: GraphView<Community, E>,
    parts: Seq<Set<usize>>,
    row: GraphView<Community, ()>,
    i: usize,
    b: int,
)
    requires
        g.edges == h.edges,
        g.ids == h.ids,
    ensures
        g.bridged_to(parts, row, i, b) == h.bridged_to(parts, row, i, b),
    decreases b,
{
    if i + 1 < b {
        lemma_same_row(g, h, parts, row, i, b - 1);
    }
}

/// The graph of communities that a partition of the nodes of a graph of communities
/// makes.
pub fn compress_ln<E>(graph: Graph<Community, E>, relabeled_assignments: Vec<NodeSet>) -> (new_graph: Graph<
    Community,
    (),
>)
    requires
        graph.wf(),
        relabeled_assignments@.len() <= u32::MAX + 1,
        crate::refine::partitions(
            crate::refine::views(relabeled_assignments@),
            crate::refine::numbers(graph@.nodes.len()),
        ),
    ensures
        new_graph.wf(),
        next_level(
            graph@.nodes,
            crate::refine::views(relabeled_assignments@),
            new_graph@.nodes,
        ),
        new_graph@ == graph@.bridged(
            crate::refine::views(relabeled_assignments@),
            new_graph@.nodes,
        ),
{
    let ghost first = graph;
    let ghost nodes = graph@.nodes;
    let ghost parts = crate::refine::views(relabeled_assignments@);
    let ghost all = crate::refine::numbers(graph@.nodes.len());
    proof {
        crate::refine::lemma_numbers(graph@.nodes.len());
        crate::refine::lemma_partition_size(parts, all);
    }
    let mut graph: Graph<Community, E> = graph;
    let mut node_to_community: CommunityAssignments = assignments_new();
    let mut new_graph: Graph<Community, ()> = Graph::new();
    let mut i: usize = 0;
    while i < relabeled_assignments.len()
        invariant
            parts == crate::refine::views(relabeled_assignments@),
            all == crate::refine::numbers(nodes.len()),
            crate::refine::partitions(parts, all),
            parts.len() <= u32::MAX + 1,
            i <= parts.len(),
            nodes == first.nodes@,
            graph.connections == first.connections,
            graph.edges == first.edges,
            graph.inner == first.inner,
            graph.nodes.len() == nodes.len(),
            forall|j: int, c: usize|
                i <= j < parts.len() && #[trigger] parts[j].contains(c) ==> graph.nodes@[c as int]
                    == nodes[c as int],
            housed(parts, i as int, node_to_community@),
            new_graph.wf(),
            new_graph@.nodes.len() == i,
            new_graph@ == nodes_alone(new_graph@.nodes),
            forall|j: int|
                0 <= j < i ==> #[trigger] merges(nodes, parts[j], new_graph@.nodes[j]),
        decreases parts.len() - i,
    {
        let community: &NodeSet = &relabeled_assignments[i];
        let ghost part = parts[i as int];
        assert(part == community@);
        proof {
            lemma_housed(parts, all, i as int, node_to_community@);
        }
        house(&mut node_to_community, community, i as u32);
        let members: Vec<usize> = set_members(community);
        proof {
            assert forall|k: int| 0 <= k < members.len() implies #[trigger] members[k]
                < graph.nodes.len() && part.contains(members[k]) by {
                assert(members@.to_set().contains(members@[k]));
                assert(parts[i as int].contains(members[k]));
                assert(all.contains(members[k]));
            }
            assert forall|j: int, c: usize|
                i < j < parts.len() && #[trigger] parts[j].contains(c) implies c < nodes.len()
                && !members@.contains(c) by {
                assert(all.contains(c));
                assert(parts[i as int].disjoint(parts[j]));
                if members@.contains(c) {
                    assert(members@.to_set().contains(c));
                }
            }
        }
        let ghost before = graph.nodes@;
        let mut taken: Vec<Community> = take_out(&mut graph.nodes, &members);
        assert(members@.map_values(|c: usize| before[c as int]) =~= members@.map_values(
            |c: usize| nodes[c as int],
        ));
        let new_community: Community = if members.len() == 1 {
            taken.pop().unwrap()
        } else {
            Community::LNCommunity(taken)
        };
        assert(combines(nodes, members@, new_community));
        let ghost earlier = new_graph@.nodes;
        let _ = new_graph.add_node(new_community);
        proof {
            assert(new_graph@.nodes == earlier.push(new_community));
            assert(new_graph@ =~= nodes_alone(new_graph@.nodes));
            assert(merges(nodes, part, new_community));
            assert forall|j: int| 0 <= j < i + 1 implies #[trigger] merges(
                nodes,
                parts[j],
                new_graph@.nodes[j],
            ) by {
                if j < i {
                    assert(merges(nodes, parts[j], earlier[j]));
                }
            }
        }
        i = i + 1;
    }
    proof {
        lemma_all_housed(parts, nodes.len(), node_to_community@);
        crate::graph::lemma_same_links(&first, &graph);
        first@.lemma_other_data(graph@);
        assert forall|a: int| 0 <= a < graph.connections.len() implies crate::graph::sorted(
            #[trigger] graph.links(a),
        ) by {
            assert(crate::graph::sorted(first.links(a)));
        }
        lemma_same_bridges(first@, graph@, parts, new_graph@, nodes.len() as int);
    }
    bridge(&graph, &node_to_community, &mut new_graph, Ghost(parts));
    new_graph
}

} // verus!
