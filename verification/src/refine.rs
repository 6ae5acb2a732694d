//! Splitting communities into their components.

use crate::graph::{Graph, GraphView};
use crate::tables::{
    assignments_entries, assignments_get, assignments_insert, assignments_new, set_clone,
    set_contains, set_extract, set_insert, set_len, set_members, set_new, set_remove,
    CommunityAssignments, CommunityId, NodeSet,
};
use std::collections::VecDeque;
use vstd::prelude::*;

verus! {

/// The nodes that are assigned to community `c`.
pub open spec fn assigned_to(assignments: Map<usize, CommunityId>, c: CommunityId) -> Set<usize> {
    assignments.dom().filter(|node: usize| assignments[node] == c)
}

/// `parts` are the communities of the assignment, each once, `labels` their labels.
pub open spec fn grouped_by(
    assignments: Map<usize, CommunityId>,
    labels: Seq<CommunityId>,
    parts: Seq<Set<usize>>,
) -> bool {
    &&& labels.no_duplicates()
    &&& parts.len() == labels.len()
    &&& forall|i: int|
        0 <= i < parts.len() ==> #[trigger] parts[i] == assigned_to(assignments, labels[i])
    &&& forall|i: int| 0 <= i < parts.len() ==> #[trigger] parts[i] != Set::<usize>::empty()
    &&& forall|node: usize| #[trigger]
        assignments.contains_key(node) ==> labels.contains(assignments[node])
}

/// `parts` are the communities of the assignment, each once.
pub open spec fn grouped(assignments: Map<usize, CommunityId>, parts: Seq<Set<usize>>) -> bool {
    exists|labels: Seq<CommunityId>| grouped_by(assignments, labels, parts)
}

/// The numbers of the nodes of a graph with `n` nodes.
pub open spec fn numbers(n: nat) -> Set<usize> {
    Set::new(|node: usize| node < n)
}

/// The sets in `parts` are not empty, share no node, and together are `all`.
pub open spec fn partitions(parts: Seq<Set<usize>>, all: Set<usize>) -> bool {
    &&& forall|i: int| 0 <= i < parts.len() ==> #[trigger] parts[i] != Set::<usize>::empty()
    &&& forall|i: int, j: int|
        0 <= i < parts.len() && 0 <= j < parts.len() && i != j ==> (#[trigger] parts[i]).disjoint(
            #[trigger] parts[j],
        )
    &&& forall|i: int| 0 <= i < parts.len() ==> (#[trigger] parts[i]).subset_of(all)
    &&& forall|node: usize| #[trigger]
        all.contains(node) ==> exists|i: int|
            0 <= i < parts.len() && (#[trigger] parts[i]).contains(node)
}

/// The node sets in `sets`.
pub open spec fn views(sets: Seq<NodeSet>) -> Seq<Set<usize>> {
    sets.map_values(|set: NodeSet| set@)
}

impl<N, E> GraphView<N, E> {
    /// The assignment gives every node a community, and nothing else.
    pub open spec fn assigns(self, assignments: Map<usize, CommunityId>) -> bool {
        forall|node: usize| #[trigger] assignments.contains_key(node) <==> node < self.nodes.len()
    }

    /// There is an edge between `a` and `b`.
    pub open spec fn adjacent(self, a: usize, b: usize) -> bool {
        self.ids.contains_key((a, b))
    }

    /// `path` walks along edges and stays in `within`.
    pub open spec fn is_path(self, within: Set<usize>, path: Seq<usize>) -> bool {
        &&& path.len() > 0
        &&& forall|i: int| 0 <= i < path.len() ==> within.contains(#[trigger] path[i])
        &&& forall|i: int, j: int|
            0 <= i && j == i + 1 && j < path.len() ==> self.adjacent(
                #[trigger] path[i],
                #[trigger] path[j],
            )
    }

    /// A path in `within` leads from `a` to `b`.
    pub open spec fn reaches(self, within: Set<usize>, a: usize, b: usize) -> bool {
        exists|path: Seq<usize>| #[trigger]
            self.is_path(within, path) && path[0] == a && path.last() == b
    }

    /// The members of `within` that paths in it reach from `start`.
    pub open spec fn component(self, within: Set<usize>, start: usize) -> Set<usize> {
        within.filter(|node: usize| self.reaches(within, start, node))
    }

    /// Any two members of `set` are joined by a path in it.
    pub open spec fn connected(self, set: Set<usize>) -> bool {
        forall|a: usize, b: usize| #[trigger]
            set.contains(a) && #[trigger] set.contains(b) ==> self.reaches(set, a, b)
    }

    /// The members of `set` have one label, and with each of them `set` has the
    /// neighbours that have this label.
    pub open spec fn self_contained(
        self,
        assignments: Map<usize, CommunityId>,
        set: Set<usize>,
    ) -> bool {
        &&& forall|u: usize, v: usize| #[trigger]
            set.contains(u) && #[trigger] set.contains(v) ==> assignments[u] == assignments[v]
        &&& forall|u: usize, v: usize|
            set.contains(u) && assignments.contains_key(v) && assignments[u] == assignments[v]
                && #[trigger] self.adjacent(u, v) ==> set.contains(v)
    }

    /// `parts` are the components of the communities of the assignment: a partition of
    /// the nodes assigned into connected sets that no edge within a community leaves.
    pub open spec fn refined(
        self,
        assignments: Map<usize, CommunityId>,
        parts: Seq<Set<usize>>,
    ) -> bool {
        &&& partitions(parts, assignments.dom())
        &&& forall|k: int| 0 <= k < parts.len() ==> self.connected(#[trigger] parts[k])
        &&& forall|k: int|
            0 <= k < parts.len() ==> self.self_contained(assignments, #[trigger] parts[k])
    }

    /// Only nodes of the graph are assigned.
    pub open spec fn assigns_within(self, assignments: Map<usize, CommunityId>) -> bool {
        forall|node: usize| #[trigger] assignments.contains_key(node) ==> node < self.nodes.len()
    }
}

/// The numbers of `n` nodes are `n` in number.
pub(crate) proof fn lemma_numbers(n: nat)
    requires
        n <= usize::MAX,
    ensures
        numbers(n).finite(),
        numbers(n).len() == n,
{
    let list = Seq::new(n, |i: int| i as usize);
    assert forall|node: usize| list.to_set().contains(node) == numbers(n).contains(node) by {
        if node < n {
            assert(list[node as int] == node);
        }
    }
    assert(list.to_set() =~= numbers(n));
    assert(list.no_duplicates());
    list.unique_seq_to_set();
}

impl<N, E> GraphView<N, E> {
    /// An assignment has as many nodes as the graph.
    pub(crate) proof fn lemma_assigns(self, assignments: Map<usize, CommunityId>)
        requires
            self.assigns(assignments),
            self.nodes.len() <= usize::MAX,
        ensures
            assignments.dom().finite(),
            assignments.dom().len() == self.nodes.len(),
            assignments.dom() == numbers(self.nodes.len()),
    {
        assert forall|node: usize| #[trigger] assignments.dom().contains(node) <==> node
            < self.nodes.len() by {
            assert(assignments.contains_key(node) <==> node < self.nodes.len());
        }
        assert(assignments.dom() =~= numbers(self.nodes.len()));
        lemma_numbers(self.nodes.len());
    }

    /// A member reaches itself.
    pub(crate) proof fn lemma_reaches_self(self, within: Set<usize>, a: usize)
        requires
            within.contains(a),
        ensures
            self.reaches(within, a, a),
    {
        assert(self.is_path(within, seq![a]));
    }

    /// A path goes on along an edge.
    pub(crate) proof fn lemma_reaches_step(self, within: Set<usize>, a: usize, b: usize, c: usize)
        requires
            self.reaches(within, a, b),
            self.adjacent(b, c),
            within.contains(c),
        ensures
            self.reaches(within, a, c),
    {
        let path = choose|path: Seq<usize>| #[trigger]
            self.is_path(within, path) && path[0] == a && path.last() == b;
        let longer = path.push(c);
        assert forall|i: int, j: int| 0 <= i && j == i + 1 && j < longer.len() implies self.adjacent(
            #[trigger] longer[i],
            #[trigger] longer[j],
        ) by {
            if j < path.len() {
                assert(self.adjacent(path[i], path[j]));
            }
        }
        assert(self.is_path(within, longer));
        assert(longer.last() == c);
    }

    /// A set that holds `a` and, with each member, the neighbours in `within`, holds
    /// all that a path from `a` comes to.
    pub(crate) proof fn lemma_closed(self, within: Set<usize>, seen: Set<usize>, path: Seq<usize>, i: int)
        requires
            self.is_path(within, path),
            seen.contains(path[0]),
            forall|u: usize, v: usize|
                seen.contains(u) && within.contains(v) && #[trigger] self.adjacent(u, v)
                    ==> seen.contains(v),
            0 <= i < path.len(),
        ensures
            seen.contains(path[i]),
        decreases i,
    {
        if i > 0 {
            self.lemma_closed(within, seen, path, i - 1);
            assert(self.adjacent(path[i - 1], path[i]));
        }
    }
}

impl<N, E> Graph<N, E> {
    /// The members of `community` that no path in it reaches from `start`.
    fn cut_off(&self, community: &NodeSet, start: usize) -> (left: NodeSet)
        requires
            self.wf(),
            community@.finite(),
            forall|node: usize| community@.contains(node) ==> node < self@.nodes.len(),
            community@.contains(start),
        ensures
            left@ == community@.difference(self@.component(community@, start)),
    {
        let ghost all = community@;
        let ghost view = self@;
        let mut left: NodeSet = set_clone(community);
        let mut queue: VecDeque<usize> = VecDeque::new();
        queue.push_back(start);
        proof {
            view.lemma_reaches_self(all, start);
            assert(queue@[0] == start);
            assert(queue@.contains(start));
        }
        loop
            invariant
                self.wf(),
                view == self@,
                all == community@,
                all.contains(start),
                forall|node: usize| all.contains(node) ==> node < view.nodes.len(),
                left@.finite(),
                left@.subset_of(all),
                forall|v: usize| #[trigger]
                    all.contains(v) && !left@.contains(v) ==> view.reaches(all, start, v),
                forall|i: int|
                    0 <= i < queue@.len() ==> all.contains(#[trigger] queue@[i]) && view.reaches(
                        all,
                        start,
                        queue@[i],
                    ),
                forall|u: usize, v: usize|
                    all.contains(u) && !left@.contains(u) && all.contains(v)
                        && #[trigger] view.adjacent(u, v) && left@.contains(v)
                        ==> queue@.contains(v),
                left@.contains(start) ==> queue@.contains(start),
            ensures
                queue@.len() == 0,
            decreases left@.len(), queue@.len(),
        {
            let ghost waiting = queue@;
            match queue.pop_front() {
                None => {
                    break;
                },
                Some(node) => {
                    let ghost before = left@;
                    assert(node == waiting[0]);
                    assert forall|v: usize| waiting.contains(v) && v != node implies queue@.contains(
                        v,
                    ) by {
                        let i = choose|i: int| 0 <= i < waiting.len() && waiting[i] == v;
                        assert(queue@[i - 1] == v);
                    }
                    let newly_visited: bool = set_remove(&mut left, node);
                    if newly_visited {
                        let count: usize = self.connections[node].len();
                        let mut k: usize = 0;
                        while k < count
                            invariant
                                self.wf(),
                                view == self@,
                                all == community@,
                                all.contains(node),
                                node < view.nodes.len(),
                                view.reaches(all, start, node),
                                count == self.links(node as int).len(),
                                k <= count,
                                forall|i: int|
                                    0 <= i < queue@.len() ==> all.contains(#[trigger] queue@[i])
                                        && view.reaches(all, start, queue@[i]),
                                forall|v: usize|
                                    waiting.contains(v) && v != node ==> queue@.contains(v),
                                forall|j: int|
                                    0 <= j < k && all.contains(
                                        (#[trigger] self.links(node as int)[j]).0,
                                    ) ==> queue@.contains(self.links(node as int)[j].0),
                            decreases count - k,
                        {
                            let neighbor: usize = self.connections[node][k].0;
                            let ghost earlier = queue@;
                            proof {
                                crate::graph::lemma_link(self, node, k as int);
                            }
                            if set_contains(community, neighbor) {
                                queue.push_back(neighbor);
                                proof {
                                    view.lemma_reaches_step(all, start, node, neighbor);
                                    assert forall|v: usize| earlier.contains(v) || v
                                        == neighbor implies queue@.contains(v) by {
                                        if earlier.contains(v) {
                                            let i = choose|i: int|
                                                0 <= i < earlier.len() && earlier[i] == v;
                                            assert(queue@[i] == v);
                                        } else {
                                            assert(queue@[earlier.len() as int] == v);
                                        }
                                    }
                                }
                            }
                            proof {
                                assert(neighbor == self.links(node as int)[k as int].0);
                                assert forall|j: int|
                                    0 <= j < k + 1 && all.contains(
                                        (#[trigger] self.links(node as int)[j]).0,
                                    ) implies queue@.contains(self.links(node as int)[j].0) by {
                                    if j < k {
                                        assert(earlier.contains(self.links(node as int)[j].0));
                                    }
                                }
                            }
                            k = k + 1;
                        }
                        proof {
                            assert forall|u: usize, v: usize|
                                all.contains(u) && !left@.contains(u) && all.contains(v)
                                    && #[trigger] view.adjacent(u, v) && left@.contains(
                                    v,
                                ) implies queue@.contains(v) by {
                                if u == node {
                                    assert(self.linked(u, v));
                                    let j = choose|j: int|
                                        crate::graph::found_at(self.links(u as int), v, j);
                                    assert(self.links(node as int)[j].0 == v);
                                }
                            }
                        }
                    }
                },
            }
        }
        proof {
            let component = view.component(all, start);
            let seen = all.difference(left@);
            assert forall|v: usize| component.contains(v) implies !left@.contains(v) by {
                let path = choose|path: Seq<usize>| #[trigger]
                    view.is_path(all, path) && path[0] == start && path.last() == v;
                view.lemma_closed(all, seen, path, path.len() - 1);
            }
            assert(left@ =~= all.difference(component));
        }
        left
    }
}

/// The nodes that the first `t` entries give to community `c`.
spec fn given(entries: Seq<(usize, CommunityId)>, t: int, c: CommunityId) -> Set<usize> {
    Set::new(|node: usize| exists|k: int| 0 <= k < t && #[trigger] entries[k] == (node, c))
}

/// All entries together give each community its nodes.
proof fn lemma_given(
    entries: Seq<(usize, CommunityId)>,
    assignments: Map<usize, CommunityId>,
    c: CommunityId,
)
    requires
        crate::tables::lists(entries, assignments),
    ensures
        given(entries, entries.len() as int, c) == assigned_to(assignments, c),
{
    let keys = entries.map_values(|entry: (usize, CommunityId)| entry.0);
    assert forall|node: usize|
        given(entries, entries.len() as int, c).contains(node) == assigned_to(
            assignments,
            c,
        ).contains(node) by {
        if given(entries, entries.len() as int, c).contains(node) {
            let k = choose|k: int| 0 <= k < entries.len() && #[trigger] entries[k] == (node, c);
            assert(keys[k] == node);
            assert(keys.to_set().contains(node));
        }
        if assigned_to(assignments, c).contains(node) {
            assert(keys.to_set().contains(node));
            let k = choose|k: int| 0 <= k < keys.len() && keys[k] == node;
            assert(entries[k] == (node, c));
        }
    }
    assert(given(entries, entries.len() as int, c) =~= assigned_to(assignments, c));
}

/// One more entry adds its node to its community.
proof fn lemma_given_step(entries: Seq<(usize, CommunityId)>, t: int, c: CommunityId)
    requires
        0 <= t < entries.len(),
    ensures
        given(entries, t + 1, c) == (if entries[t].1 == c {
            given(entries, t, c).insert(entries[t].0)
        } else {
            given(entries, t, c)
        }),
{
    assert(given(entries, t + 1, c) =~= (if entries[t].1 == c {
        given(entries, t, c).insert(entries[t].0)
    } else {
        given(entries, t, c)
    })) by {
        assert(entries[t] == (entries[t].0, entries[t].1));
    }
}

/// Where a label is missing among different labels, there are no more of them than the
/// largest label says.
proof fn lemma_labels_fit(labels: Seq<CommunityId>, missing: CommunityId)
    requires
        labels.no_duplicates(),
        !labels.contains(missing),
    ensures
        labels.len() <= u32::MAX,
{
    let every = Seq::new((u32::MAX + 1) as nat, |i: int| i as u32);
    let more = labels.push(missing);
    assert(every.no_duplicates());
    assert(more.no_duplicates()) by {
        assert forall|i: int, j: int| 0 <= i < j < more.len() implies more[i] != more[j] by {
            if j == labels.len() {
                assert(labels.contains(labels[i]));
            }
        }
    }
    assert forall|c: CommunityId| more.to_set().contains(c) implies every.to_set().contains(c) by {
        assert(every[c as int] == c);
    }
    every.unique_seq_to_set();
    more.unique_seq_to_set();
    vstd::set_lib::lemma_len_subset(more.to_set(), every.to_set());
}

/// The communities of an assignment.
fn group(assignments: &CommunityAssignments) -> (parts: Vec<NodeSet>)
    ensures
        grouped(assignments@, views(parts@)),
{
    let entries: Vec<(usize, CommunityId)> = assignments_entries(assignments);
    let ghost keys = entries@.map_values(|entry: (usize, CommunityId)| entry.0);
    let mut parts: Vec<NodeSet> = Vec::new();
    let mut relabel: CommunityAssignments = assignments_new();
    let ghost mut labels: Seq<CommunityId> = Seq::empty();
    let mut t: usize = 0;
    while t < entries.len()
        invariant
            t <= entries.len(),
            labels.no_duplicates(),
            labels.len() == parts.len(),
            forall|i: int|
                0 <= i < labels.len() ==> relabel@.contains_key(#[trigger] labels[i] as usize)
                    && relabel@[labels[i] as usize] == i,
            forall|key: usize| #[trigger]
                relabel@.contains_key(key) ==> exists|i: int|
                    0 <= i < labels.len() && key == #[trigger] labels[i] as usize,
            forall|i: int|
                0 <= i < parts.len() ==> (#[trigger] parts@[i])@ == given(
                    entries@,
                    t as int,
                    labels[i],
                ),
            forall|i: int| 0 <= i < parts.len() ==> (#[trigger] parts@[i])@ != Set::<usize>::empty(),
            forall|k: int| 0 <= k < t ==> labels.contains((#[trigger] entries@[k]).1),
        decreases entries.len() - t,
    {
        let (node, community) = entries[t];
        let ghost known = labels;
        let index: u32 = match assignments_get(&relabel, community as usize) {
            Some(index) => {
                proof {
                    assert(relabel@.contains_key(community as usize));
                    let i = choose|i: int|
                        0 <= i < labels.len() && community as usize == #[trigger] labels[i] as usize;
                    assert(labels[i] == community);
                }
                index
            },
            None => {
                proof {
                    assert forall|i: int| 0 <= i < labels.len() implies labels[i] != community by {
                        assert(relabel@.contains_key(labels[i] as usize));
                    }
                    lemma_labels_fit(labels, community);
                }
                let index: u32 = parts.len() as u32;
                let ghost filled = parts@;
                let ghost old_relabel = relabel@;
                let _ = assignments_insert(&mut relabel, community as usize, index);
                parts.push(set_new());
                proof {
                    assert forall|i: int| 0 <= i < labels.len() implies labels[i] != community by {
                        assert(relabel@.contains_key(labels[i] as usize));
                    }
                    labels = labels.push(community);
                    assert(labels.last() == community);
                    assert forall|k: int| 0 <= k < t implies (#[trigger] entries@[k]).1 != community by {
                        let i = choose|i: int| 0 <= i < known.len() && known[i] == entries@[k].1;
                    }
                    assert(given(entries@, t as int, community) =~= Set::<usize>::empty());
                    assert forall|key: usize| #[trigger]
                        relabel@.contains_key(key) implies exists|i: int|
                        0 <= i < labels.len() && key == #[trigger] labels[i] as usize by {
                        if key == community as usize {
                            assert(labels[known.len() as int] as usize == key);
                        } else {
                            assert(old_relabel.contains_key(key));
                            let i = choose|i: int|
                                0 <= i < known.len() && key == #[trigger] known[i] as usize;
                            assert(labels[i] as usize == key);
                        }
                    }
                    assert forall|i: int| 0 <= i < filled.len() implies parts@[i] == filled[i] by {}
                }
                index
            },
        };
        let ghost before = parts@;
        let _ = set_insert(&mut parts[index as usize], node);
        proof {
            assert forall|i: int| 0 <= i < parts.len() implies (#[trigger] parts@[i])@ == given(
                entries@,
                t + 1,
                labels[i],
            ) && parts@[i]@ != Set::<usize>::empty() by {
                lemma_given_step(entries@, t as int, labels[i]);
                if i == index {
                    assert(parts@[i]@.contains(node));
                } else {
                    assert(parts@[i] == before[i]);
                    assert(labels[i] != community);
                }
            }
            assert forall|k: int| 0 <= k < t + 1 implies labels.contains((#[trigger] entries@[k]).1) by {
                if k < t {
                    let i = choose|i: int| 0 <= i < known.len() && known[i] == entries@[k].1;
                    assert(labels[i] == entries@[k].1);
                } else {
                    assert(labels[index as int] == community);
                }
            }
        }
        t = t + 1;
    }
    proof {
        let sets = views(parts@);
        assert forall|i: int| 0 <= i < sets.len() implies #[trigger] sets[i] == assigned_to(
            assignments@,
            labels[i],
        ) && sets[i] != Set::<usize>::empty() by {
            lemma_given(entries@, assignments@, labels[i]);
            assert(sets[i] == parts@[i]@);
        }
        assert forall|node: usize| #[trigger]
            assignments@.contains_key(node) implies labels.contains(assignments@[node]) by {
            assert(keys.to_set().contains(node));
            let k = choose|k: int| 0 <= k < keys.len() && keys[k] == node;
            assert(entries@[k].0 == node);
        }
        assert(grouped_by(assignments@, labels, sets));
    }
    parts
}

/// The communities of an assignment partition its nodes.
proof fn lemma_grouped_partitions(assignments: Map<usize, CommunityId>, parts: Seq<Set<usize>>)
    requires
        grouped(assignments, parts),
    ensures
        partitions(parts, assignments.dom()),
{
    let labels = choose|labels: Seq<CommunityId>| grouped_by(assignments, labels, parts);
    assert forall|i: int, j: int|
        0 <= i < parts.len() && 0 <= j < parts.len() && i != j implies (
    #[trigger] parts[i]).disjoint(#[trigger] parts[j]) by {
        assert(labels[i] != labels[j]);
    }
    assert forall|node: usize| #[trigger] assignments.dom().contains(node) implies exists|i: int|
        0 <= i < parts.len() && (#[trigger] parts[i]).contains(node) by {
        assert(assignments.contains_key(node));
        let i = choose|i: int| 0 <= i < labels.len() && labels[i] == assignments[node];
        assert(parts[i].contains(node));
    }
}

/// A partition of a finite set has no more parts than the set has members.
pub(crate) proof fn lemma_partition_size(parts: Seq<Set<usize>>, all: Set<usize>)
    requires
        partitions(parts, all),
        all.finite(),
    ensures
        parts.len() <= all.len(),
{
    let firsts = Seq::new(parts.len(), |i: int| parts[i].choose());
    assert forall|i: int| 0 <= i < parts.len() implies parts[i].contains(#[trigger] firsts[i]) by {
        assert(parts[i] != Set::<usize>::empty());
        if forall|node: usize| !parts[i].contains(node) {
            assert(parts[i] =~= Set::<usize>::empty());
        }
    }
    assert forall|i: int, j: int|
        0 <= i < firsts.len() && 0 <= j < firsts.len() && i != j implies firsts[i] != firsts[j] by {
        assert(parts[i].disjoint(parts[j]));
    }
    assert(firsts.no_duplicates());
    firsts.unique_seq_to_set();
    assert forall|node: usize| firsts.to_set().contains(node) implies all.contains(node) by {
        let i = choose|i: int| 0 <= i < firsts.len() && firsts[i] == node;
        assert(parts[i].subset_of(all));
    }
    vstd::set_lib::lemma_len_subset(firsts.to_set(), all);
}

/// A set of a partition that is cut in two leaves a partition.
proof fn lemma_cut_partitions(
    before: Seq<Set<usize>>,
    i: int,
    part: Set<usize>,
    rest: Set<usize>,
    all: Set<usize>,
)
    requires
        partitions(before, all),
        0 <= i < before.len(),
        part != Set::<usize>::empty(),
        rest != Set::<usize>::empty(),
        part.disjoint(rest),
        part.union(rest) == before[i],
    ensures
        partitions(before.update(i, part).push(rest), all),
{
    let after = before.update(i, part).push(rest);
    let n = before.len() as int;
    assert forall|node: usize| part.contains(node) || rest.contains(node) implies before[i].contains(
        node,
    ) by {
        assert(part.union(rest).contains(node));
    }
    assert forall|j: int| 0 <= j < n && j != i implies after[j] == before[j] by {}
    assert forall|j: int, k: int|
        0 <= j < after.len() && 0 <= k < after.len() && j != k implies (
    #[trigger] after[j]).disjoint(#[trigger] after[k]) by {
        let x = if j == n { i } else { j };
        let y = if k == n { i } else { k };
        if x != y {
            assert(before[x].disjoint(before[y]));
        }
    }
    assert forall|j: int| 0 <= j < after.len() implies (#[trigger] after[j]).subset_of(all) by {
        let x = if j == n { i } else { j };
        assert(before[x].subset_of(all));
    }
    assert forall|node: usize| #[trigger] all.contains(node) implies exists|j: int|
        0 <= j < after.len() && (#[trigger] after[j]).contains(node) by {
        let j = choose|j: int| 0 <= j < before.len() && (#[trigger] before[j]).contains(node);
        if j != i {
            assert(after[j].contains(node));
        } else {
            assert(part.union(rest).contains(node));
            if part.contains(node) {
                assert(after[i].contains(node));
            } else {
                assert(after[n].contains(node));
            }
        }
    }
}

impl<N, E> GraphView<N, E> {
    /// A set with one member is connected.
    proof fn lemma_single(self, set: Set<usize>)
        requires
            set.finite(),
            set.len() == 1,
        ensures
            self.connected(set),
    {
        let start = set.choose();
        vstd::set_lib::lemma_set_empty_equivalency_len(set);
        assert(set.contains(start));
        assert forall|node: usize| set.contains(node) implies node == start by {
            if node != start {
                assert(set.remove(start).len() == 0);
                vstd::set_lib::lemma_set_empty_equivalency_len(set.remove(start));
                assert(set.remove(start).contains(node));
            }
        }
        self.lemma_reaches_self(set, start);
    }

    /// The component of a member and the rest of a set have the neighbours with their
    /// label, where the set does.
    proof fn lemma_halves_contained(
        self,
        assignments: Map<usize, CommunityId>,
        set: Set<usize>,
        start: usize,
    )
        requires
            self.wf(),
            self.self_contained(assignments, set),
            set.contains(start),
        ensures
            self.self_contained(assignments, self.component(set, start)),
            self.self_contained(assignments, set.difference(self.component(set, start))),
    {
        let part = self.component(set, start);
        let rest = set.difference(part);
        assert forall|u: usize, v: usize|
            part.contains(u) && assignments.contains_key(v) && assignments[u] == assignments[v]
                && #[trigger] self.adjacent(u, v) implies part.contains(v) by {
            assert(set.contains(u));
            self.lemma_reaches_step(set, start, u, v);
        }
        assert forall|u: usize, v: usize|
            rest.contains(u) && assignments.contains_key(v) && assignments[u] == assignments[v]
                && #[trigger] self.adjacent(u, v) implies rest.contains(v) by {
            assert(set.contains(u));
            assert(set.contains(v));
            if part.contains(v) {
                assert(self.ids.contains_key((u, v)));
                assert(self.adjacent(v, u));
                self.lemma_reaches_step(set, start, v, u);
            }
        }
        assert forall|u: usize, v: usize| #[trigger]
            part.contains(u) && #[trigger] part.contains(v) implies assignments[u]
            == assignments[v] by {
            assert(set.contains(u) && set.contains(v));
        }
        assert forall|u: usize, v: usize| #[trigger]
            rest.contains(u) && #[trigger] rest.contains(v) implies assignments[u]
            == assignments[v] by {
            assert(set.contains(u) && set.contains(v));
        }
    }
}

impl<N, E> Graph<N, E> {
    /// Splits the communities of an assignment into their components: each community in
    /// turn keeps one component, and what is left becomes a community that is looked at
    /// later.
    pub fn refine(&self, assignments: &CommunityAssignments) -> (communities: Vec<NodeSet>)
        requires
            self.wf(),
            self@.assigns_within(assignments@),
        ensures
            self@.refined(assignments@, views(communities@)),
    {
        let ghost view = self@;
        let ghost all = assignments@.dom();
        proof {
            lemma_numbers(view.nodes.len());
            assert forall|node: usize| all.contains(node) implies numbers(
                view.nodes.len(),
            ).contains(node) by {
                assert(assignments@.contains_key(node));
            }
            vstd::set_lib::lemma_len_subset(all, numbers(view.nodes.len()));
        }
        let mut communities: Vec<NodeSet> = group(assignments);
        proof {
            let sets = views(communities@);
            lemma_grouped_partitions(assignments@, sets);
            let labels = choose|labels: Seq<CommunityId>|
                grouped_by(assignments@, labels, sets);
            assert forall|k: int| 0 <= k < sets.len() implies view.self_contained(
                assignments@,
                #[trigger] sets[k],
            ) by {
                assert(sets[k] == assigned_to(assignments@, labels[k]));
            }
        }
        let mut i: usize = 0;
        while i < communities.len()
            invariant
                self.wf(),
                view == self@,
                all == assignments@.dom(),
                all.finite(),
                forall|node: usize| all.contains(node) ==> node < view.nodes.len(),
                partitions(views(communities@), all),
                i <= communities.len(),
                forall|k: int| 0 <= k < i ==> view.connected(#[trigger] views(communities@)[k]),
                forall|k: int|
                    0 <= k < communities.len() ==> view.self_contained(
                        assignments@,
                        #[trigger] views(communities@)[k],
                    ),
            decreases all.len() - i,
        {
            let ghost before = views(communities@);
            let ghost set = before[i as int];
            proof {
                lemma_partition_size(before, all);
                assert(set == communities@[i as int]@);
                assert(set.subset_of(all));
                assert(set != Set::<usize>::empty());
                vstd::set_lib::lemma_len_subset(set, all);
            }
            if set_len(&communities[i]) == 1 {
                proof {
                    view.lemma_single(set);
                }
            } else {
                let members: Vec<usize> = set_members(&communities[i]);
                proof {
                    if members@.len() == 0 {
                        assert(members@.to_set() =~= Set::<usize>::empty());
                    }
                    assert(members@.to_set().contains(members@[0]));
                }
                let start: usize = members[0];
                let left_members: NodeSet = self.cut_off(&communities[i], start);
                let ghost part = view.component(set, start);
                let ghost rest = set.difference(part);
                proof {
                    view.lemma_component_connected(set, start);
                    view.lemma_halves_contained(assignments@, set, start);
                }
                if set_len(&left_members) == 0 {
                    proof {
                        vstd::set_lib::lemma_set_empty_equivalency_len(rest);
                        assert(part =~= set) by {
                            assert forall|node: usize| set.contains(node) implies part.contains(
                                node,
                            ) by {
                                if !part.contains(node) {
                                    assert(rest.contains(node));
                                }
                            }
                        }
                    }
                } else {
                    set_extract(&mut communities[i], &left_members);
                    communities.push(left_members);
                    proof {
                        assert(set.difference(rest) =~= part);
                        assert(part.union(rest) =~= set);
                        if rest == Set::<usize>::empty() {
                            assert(rest.len() == 0);
                        }
                        lemma_cut_partitions(before, i as int, part, rest, all);
                        let after = before.update(i as int, part).push(rest);
                        assert(views(communities@) =~= after);
                        assert forall|k: int| 0 <= k < i implies view.connected(
                            #[trigger] after[k],
                        ) by {
                            assert(after[k] == before[k]);
                        }
                        assert forall|k: int| 0 <= k < after.len() implies view.self_contained(
                            assignments@,
                            #[trigger] after[k],
                        ) by {
                            if k < before.len() && k != i {
                                assert(after[k] == before[k]);
                            }
                        }
                    }
                }
            }
            i = i + 1;
        }
        communities
    }
}

} // verus!
