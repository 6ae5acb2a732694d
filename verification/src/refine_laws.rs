//! What holds of the communities that refinement hands out.

use crate::graph::GraphView;
use crate::tables::CommunityId;
use vstd::prelude::*;

verus! {

impl<N, E> GraphView<N, E> {
    /// Paths join up.
    pub(crate) proof fn lemma_reaches_on(self, within: Set<usize>, a: usize, b: usize, c: usize)
        requires
            self.reaches(within, a, b),
            self.reaches(within, b, c),
        ensures
            self.reaches(within, a, c),
    {
        let seen = self.component(within, a);
        let path = choose|path: Seq<usize>| #[trigger]
            self.is_path(within, path) && path[0] == b && path.last() == c;
        assert forall|u: usize, v: usize|
            seen.contains(u) && within.contains(v) && #[trigger] self.adjacent(u, v) implies seen.contains(
        v) by {
            self.lemma_reaches_step(within, a, u, v);
        }
        assert(seen.contains(path[0]));
        self.lemma_closed(within, seen, path, path.len() - 1);
    }

    /// Paths lead back.
    pub(crate) proof fn lemma_reaches_back(self, within: Set<usize>, a: usize, b: usize)
        requires
            self.wf(),
            self.reaches(within, a, b),
        ensures
            self.reaches(within, b, a),
    {
        let path = choose|path: Seq<usize>| #[trigger]
            self.is_path(within, path) && path[0] == a && path.last() == b;
        self.lemma_path_back(within, path, path.len() - 1);
    }

    proof fn lemma_path_back(self, within: Set<usize>, path: Seq<usize>, i: int)
        requires
            self.wf(),
            self.is_path(within, path),
            0 <= i < path.len(),
        ensures
            self.reaches(within, path[i], path[0]),
        decreases i,
    {
        self.lemma_reaches_self(within, path[i]);
        if i > 0 {
            self.lemma_path_back(within, path, i - 1);
            assert(self.adjacent(path[i - 1], path[i]));
            assert(self.adjacent(path[i], path[i - 1]));
            self.lemma_reaches_step(within, path[i], path[i], path[i - 1]);
            self.lemma_reaches_on(within, path[i], path[i - 1], path[0]);
        }
    }

    /// A component is connected.
    pub(crate) proof fn lemma_component_connected(self, within: Set<usize>, start: usize)
        requires
            self.wf(),
            within.contains(start),
        ensures
            self.connected(self.component(within, start)),
            self.component(within, start).contains(start),
    {
        let part = self.component(within, start);
        self.lemma_reaches_self(within, start);
        assert forall|a: usize, b: usize| #[trigger]
            part.contains(a) && #[trigger] part.contains(b) implies self.reaches(part, a, b) by {
            self.lemma_reaches_back(within, start, a);
            self.lemma_reaches_on(within, a, start, b);
            let path = choose|path: Seq<usize>| #[trigger]
                self.is_path(within, path) && path[0] == a && path.last() == b;
            assert forall|i: int| 0 <= i < path.len() implies part.contains(#[trigger] path[i]) by {
                assert forall|u: usize, v: usize|
                    part.contains(u) && within.contains(v) && #[trigger] self.adjacent(
                        u,
                        v,
                    ) implies part.contains(v) by {
                    self.lemma_reaches_step(within, start, u, v);
                }
                self.lemma_closed(within, part, path, i);
            }
            assert(self.is_path(part, path));
        }
    }

    /// A refined community is the component of each of its members in the community of
    /// the assignment that it comes from.
    pub proof fn law_refined_are_components(
        self,
        assignments: Map<usize, CommunityId>,
        parts: Seq<Set<usize>>,
        k: int,
        node: usize,
    )
        requires
            self.refined(assignments, parts),
            0 <= k < parts.len(),
            parts[k].contains(node),
        ensures
            parts[k] == self.component(
                crate::refine::assigned_to(assignments, assignments[node]),
                node,
            ),
    {
        let whole = crate::refine::assigned_to(assignments, assignments[node]);
        let part = parts[k];
        assert(part.subset_of(assignments.dom()));
        assert(self.connected(part));
        assert(self.self_contained(assignments, part));
        assert forall|v: usize| part.contains(v) implies self.component(whole, node).contains(v) by {
            assert(part.contains(node) && part.contains(v));
            assert(self.reaches(part, node, v));
            let path = choose|path: Seq<usize>| #[trigger]
                self.is_path(part, path) && path[0] == node && path.last() == v;
            assert forall|i: int| 0 <= i < path.len() implies whole.contains(
                #[trigger] path[i],
            ) by {
                assert(part.contains(path[i]) && part.contains(node));
                assert(assignments.dom().contains(path[i]));
            }
            assert(self.is_path(whole, path));
            assert(assignments.dom().contains(v));
        }
        assert forall|v: usize| self.component(whole, node).contains(v) implies part.contains(v) by {
            let path = choose|path: Seq<usize>| #[trigger]
                self.is_path(whole, path) && path[0] == node && path.last() == v;
            assert forall|a: usize, b: usize|
                part.contains(a) && whole.contains(b) && #[trigger] self.adjacent(
                    a,
                    b,
                ) implies part.contains(b) by {
                assert(part.contains(node) && part.contains(a));
            }
            self.lemma_closed(whole, part, path, path.len() - 1);
        }
        assert(part =~= self.component(whole, node));
    }

    /// Refinement leaves no choice but the order: two refinements of an assignment have
    /// the same sets.
    pub proof fn law_refinement_is_determined(
        self,
        assignments: Map<usize, CommunityId>,
        first: Seq<Set<usize>>,
        second: Seq<Set<usize>>,
        k: int,
    )
        requires
            self.refined(assignments, first),
            self.refined(assignments, second),
            0 <= k < first.len(),
        ensures
            exists|j: int| 0 <= j < second.len() && #[trigger] second[j] == first[k],
    {
        assert(first[k] != Set::<usize>::empty());
        if forall|node: usize| !first[k].contains(node) {
            assert(first[k] =~= Set::<usize>::empty());
        }
        let node = choose|node: usize| first[k].contains(node);
        assert(first[k].subset_of(assignments.dom()));
        assert(assignments.dom().contains(node));
        let j = choose|j: int| 0 <= j < second.len() && (#[trigger] second[j]).contains(node);
        self.law_refined_are_components(assignments, first, k, node);
        self.law_refined_are_components(assignments, second, j, node);
        assert(second[j] == first[k]);
    }

    /// A community of the assignment that is connected comes out whole.
    pub proof fn law_connected_stays_whole(
        self,
        assignments: Map<usize, CommunityId>,
        parts: Seq<Set<usize>>,
        k: int,
        node: usize,
    )
        requires
            self.refined(assignments, parts),
            0 <= k < parts.len(),
            parts[k].contains(node),
            self.connected(crate::refine::assigned_to(assignments, assignments[node])),
        ensures
            parts[k] == crate::refine::assigned_to(assignments, assignments[node]),
    {
        let whole = crate::refine::assigned_to(assignments, assignments[node]);
        self.law_refined_are_components(assignments, parts, k, node);
        assert forall|v: usize| whole.contains(v) implies parts[k].contains(v) by {
            assert(parts[k].subset_of(assignments.dom()));
            assert(assignments.dom().contains(node));
            assert(whole.contains(node) && whole.contains(v));
            assert(self.reaches(whole, node, v));
        }
        assert(parts[k] =~= whole);
    }
}

} // verus!
