//! Moving nodes between communities.

use crate::binary32::Binary32;
use crate::graph::{Graph, GraphView};
use crate::modularity::LocalMove;
use crate::tables::{
    assignments_get, weights_entries, weights_entry, weights_get, weights_new,
    CommunityAssignments, CommunityId, CommunityWeights,
};
use vstd::prelude::*;

verus! {

/// The weight of a community, which is zero where none is kept.
pub open spec fn weight_or_zero(weights: Map<CommunityId, Binary32>, c: CommunityId) -> Binary32 {
    if weights.contains_key(c) {
        weights[c]
    } else {
        Binary32 { bits: 0 }
    }
}

/// `weights` with `amount` added to the weight of `c`.
pub open spec fn with_weight(
    weights: Map<CommunityId, Binary32>,
    c: CommunityId,
    amount: Binary32,
) -> Map<CommunityId, Binary32> {
    weights.insert(c, weight_or_zero(weights, c).added(amount))
}

/// How far the optimization has come: the community of each node, and the sum of the
/// weighted degrees in each community.
#[verifier::ext_equal]
pub struct Progress {
    pub labels: Map<usize, CommunityId>,
    pub sigma: Map<CommunityId, Binary32>,
}

impl Progress {
    /// After a move: its node has changed community, and taken its weighted degree along.
    pub open spec fn after(self, degrees: Seq<Binary32>, local_move: LocalMove) -> Progress {
        let k = degrees[local_move.node as int];
        let old_community = self.labels[local_move.node];
        let left = self.sigma.insert(old_community, self.sigma[old_community].subtracted(k));
        Progress {
            labels: self.labels.insert(local_move.node, local_move.community),
            sigma: with_weight(left, local_move.community, k),
        }
    }

    /// Each community that a node is in has its sum.
    pub open spec fn summed(self) -> bool {
        forall|node: usize| #[trigger]
            self.labels.contains_key(node) ==> self.sigma.contains_key(self.labels[node])
    }
}

impl<N, E> GraphView<N, E> {
    /// The weights of the edges from `a` to the nodes below `b`, added up by community.
    pub open spec fn weights_below(
        self,
        labels: Map<usize, CommunityId>,
        a: usize,
        b: int,
    ) -> Map<CommunityId, Binary32>
        decreases b,
    {
        if b <= 0 {
            Map::empty()
        } else {
            let rest = self.weights_below(labels, a, b - 1);
            if self.adjacent(a, (b - 1) as usize) {
                with_weight(rest, labels[(b - 1) as usize], self.weight(a, (b - 1) as usize))
            } else {
                rest
            }
        }
    }

    /// The weights of the edges from `a`, added up by community.
    pub open spec fn community_weights(self, labels: Map<usize, CommunityId>, a: usize) -> Map<
        CommunityId,
        Binary32,
    > {
        self.weights_below(labels, a, self.nodes.len() as int)
    }

    /// Twice the square of the total weight.
    pub open spec fn twice_square(self) -> Binary32 {
        let two = Binary32 { bits: 0x4000_0000 };
        two.multiplied(self.total_weight).multiplied(self.total_weight)
    }

    /// The score of `node` for staying where it is, its weighted degree taken out of the
    /// sum of its community.
    pub open spec fn baseline(self, degrees: Seq<Binary32>, at: Progress, node: usize) -> Binary32 {
        let k = degrees[node as int];
        let c = at.labels[node];
        let inside = weight_or_zero(self.community_weights(at.labels, node), c);
        inside.divided(self.total_weight).subtracted(
            k.multiplied(weight_or_zero(at.sigma, c).subtracted(k)).divided(self.twice_square()),
        )
    }

    /// The score of `node` for a move to community `c`.
    pub open spec fn score(
        self,
        degrees: Seq<Binary32>,
        at: Progress,
        node: usize,
        c: CommunityId,
    ) -> Binary32 {
        let k = degrees[node as int];
        self.community_weights(at.labels, node)[c].divided(self.total_weight).subtracted(
            k.multiplied(weight_or_zero(at.sigma, c)).divided(self.twice_square()),
        )
    }

    /// What `node` gains by a move to community `c`.
    pub open spec fn gain(
        self,
        degrees: Seq<Binary32>,
        at: Progress,
        node: usize,
        c: CommunityId,
    ) -> Binary32 {
        self.score(degrees, at, node, c).subtracted(self.baseline(degrees, at, node))
    }

    /// A neighbour of `node` is in community `c`, and `node` is not.
    pub open spec fn candidate(self, at: Progress, node: usize, c: CommunityId) -> bool {
        self.community_weights(at.labels, node).contains_key(c) && c != at.labels[node]
    }

    /// The move to `c` gains something.
    pub open spec fn improves(
        self,
        degrees: Seq<Binary32>,
        at: Progress,
        node: usize,
        c: CommunityId,
    ) -> bool {
        Binary32 { bits: 0 }.below(self.gain(degrees, at, node, c))
    }

    /// `choice` is a move of `node` that gains something, and no other gains more; it is
    /// none exactly if no move gains anything.
    pub open spec fn chooses(
        self,
        degrees: Seq<Binary32>,
        at: Progress,
        node: usize,
        choice: Option<LocalMove>,
    ) -> bool {
        match choice {
            None => forall|c: CommunityId| #[trigger]
                self.candidate(at, node, c) ==> !self.improves(degrees, at, node, c),
            Some(local_move) => {
                &&& local_move.node == node
                &&& self.candidate(at, node, local_move.community)
                &&& self.improves(degrees, at, node, local_move.community)
                &&& forall|c: CommunityId| #[trigger]
                    self.candidate(at, node, c) ==> !self.gain(
                        degrees,
                        at,
                        node,
                        local_move.community,
                    ).below(self.gain(degrees, at, node, c))
            },
        }
    }

    /// `node` and its neighbours have a community.
    pub open spec fn covered_around(self, labels: Map<usize, CommunityId>, node: usize) -> bool {
        &&& labels.contains_key(node)
        &&& forall|neighbor: usize| #[trigger]
            self.adjacent(node, neighbor) ==> labels.contains_key(neighbor)
    }

    /// Where every node has a community, a node and its neighbours have one.
    pub(crate) proof fn lemma_covered_around(self, labels: Map<usize, CommunityId>, node: usize)
        requires
            self.wf(),
            self.covered_by(labels),
            node < self.nodes.len(),
        ensures
            self.covered_around(labels, node),
    {
        assert forall|neighbor: usize| #[trigger] self.adjacent(
            node,
            neighbor,
        ) implies labels.contains_key(neighbor) by {
            assert(self.ids.contains_key((node, neighbor)));
        }
    }

    /// No move of any node gains anything.
    pub open spec fn settled(self, degrees: Seq<Binary32>, at: Progress) -> bool {
        forall|node: usize|
            node < self.nodes.len() ==> #[trigger] self.chooses(degrees, at, node, None)
    }

    proof fn lemma_weights_keys(self, labels: Map<usize, CommunityId>, a: usize, b: int, c: CommunityId)
        requires
            b <= usize::MAX + 1,
        ensures
            self.weights_below(labels, a, b).contains_key(c) <==> exists|neighbor: usize|
                neighbor < b && #[trigger] self.adjacent(a, neighbor) && labels[neighbor] == c,
        decreases b,
    {
        if 0 < b {
            self.lemma_weights_keys(labels, a, b - 1, c);
            let last = (b - 1) as usize;
            if self.adjacent(a, last) && labels[last] == c {
                assert(self.weights_below(labels, a, b).contains_key(c));
            } else if self.weights_below(labels, a, b).contains_key(c) {
                assert(self.weights_below(labels, a, b - 1).contains_key(c));
            }
            if exists|neighbor: usize|
                neighbor < b && #[trigger] self.adjacent(a, neighbor) && labels[neighbor] == c {
                let neighbor = choose|neighbor: usize|
                    neighbor < b && #[trigger] self.adjacent(a, neighbor) && labels[neighbor] == c;
                if neighbor != last {
                    assert(neighbor < b - 1);
                }
            }
        }
    }

    /// The communities that a node can move to are those of its neighbours, but for its
    /// own.
    pub proof fn law_candidates(self, at: Progress, node: usize, c: CommunityId)
        requires
            self.wf(),
            self.nodes.len() <= usize::MAX,
        ensures
            self.candidate(at, node, c) <==> c != at.labels[node] && exists|neighbor: usize|
                #[trigger] self.adjacent(node, neighbor) && at.labels[neighbor] == c,
    {
        self.lemma_weights_keys(at.labels, node, self.nodes.len() as int, c);
        assert forall|neighbor: usize| #[trigger] self.adjacent(node, neighbor) implies neighbor
            < self.nodes.len() by {
            assert(self.ids.contains_key((node, neighbor)));
        }
    }

    /// Two choices of a node from the same state gain the same, and either both are a
    /// move or neither is.
    pub proof fn law_choices_are_equally_good(
        self,
        degrees: Seq<Binary32>,
        at: Progress,
        node: usize,
        first: Option<LocalMove>,
        second: Option<LocalMove>,
    )
        requires
            self.chooses(degrees, at, node, first),
            self.chooses(degrees, at, node, second),
        ensures
            first is Some <==> second is Some,
            first is Some ==> self.gain(degrees, at, node, first->0.community).amount()
                == self.gain(degrees, at, node, second->0.community).amount(),
    {
        if let Some(a) = first {
            assert(self.candidate(at, node, a.community));
            if let Some(b) = second {
                assert(self.candidate(at, node, b.community));
            }
        }
        if let Some(b) = second {
            assert(self.candidate(at, node, b.community));
        }
    }

    /// Nodes that are no neighbours add nothing.
    proof fn lemma_weights_gap(self, labels: Map<usize, CommunityId>, a: usize, low: int, high: int)
        requires
            0 <= low <= high,
            forall|b: int| low <= b < high ==> !#[trigger] self.adjacent(a, b as usize),
        ensures
            self.weights_below(labels, a, low) == self.weights_below(labels, a, high),
        decreases high,
    {
        if low < high {
            self.lemma_weights_gap(labels, a, low, high - 1);
            assert(!self.adjacent(a, (high - 1) as usize));
        }
    }
}

impl<N, E> Graph<N, E> {
    /// The weights of the edges from `node`, added up by the community they lead to.
    fn weigh_communities(&self, node: usize, assignments: &CommunityAssignments) -> (weights:
        CommunityWeights)
        requires
            self.wf(),
            node < self@.nodes.len(),
            self@.covered_around(assignments@, node),
        ensures
            weights@ == self@.community_weights(assignments@, node),
    {
        let ghost n = self@.nodes.len() as int;
        let mut weights: CommunityWeights = weights_new();
        let count: usize = self.connections[node].len();
        let mut k: usize = 0;
        let ghost mut done: int = 0;
        while k < count
            invariant
                self.wf(),
                n == self@.nodes.len(),
                node < n,
                self@.covered_around(assignments@, node),
                count == self.links(node as int).len(),
                k <= count,
                0 <= done <= n,
                k == 0 ==> done == 0,
                0 < k ==> done == self.links(node as int)[k - 1].0 + 1,
                weights@ == self@.weights_below(assignments@, node, done),
            decreases count - k,
        {
            let (neighbor, edge_id) = self.connections[node][k];
            proof {
                crate::graph::lemma_link(self, node, k as int);
                assert(crate::modularity::sorted_list(self, node as int));
                assert(self@.adjacent(node, neighbor));
                assert forall|b: int| done <= b < neighbor implies !#[trigger] self@.adjacent(
                    node,
                    b as usize,
                ) by {
                    crate::modularity::lemma_gap(self, node, k as int, b);
                }
                self@.lemma_weights_gap(assignments@, node, done, neighbor as int);
                done = neighbor + 1;
                assert(assignments@.contains_key(neighbor));
            }
            let community: CommunityId = assignments_get(assignments, neighbor).unwrap();
            let weight: Binary32 = self.edges[edge_id].weight;
            let place = weights_entry(&mut weights, community, Binary32::from_bits(0));
            *place = place.plus(weight);
            k = k + 1;
        }
        proof {
            assert forall|b: int| done <= b < n implies !#[trigger] self@.adjacent(
                node,
                b as usize,
            ) by {
                crate::modularity::lemma_gap(self, node, k as int, b);
            }
            self@.lemma_weights_gap(assignments@, node, done, n);
        }
        weights
    }

    /// The move of `node` that improves modularity most, or nothing if no move improves
    /// it. Of several equally good moves it may be any.
    pub fn fast_local_move(
        &self,
        node: usize,
        assignments: &CommunityAssignments,
        weighted_degrees: &[Binary32],
        sigma_tot: &CommunityWeights,
    ) -> (choice: Option<LocalMove>)
        requires
            self.wf(),
            node < self@.nodes.len(),
            node < weighted_degrees.len(),
            self@.covered_around(assignments@, node),
        ensures
            self@.chooses(
                weighted_degrees@,
                Progress { labels: assignments@, sigma: sigma_tot@ },
                node,
                choice,
            ),
    {
        let ghost at = Progress { labels: assignments@, sigma: sigma_tot@ };
        let ghost degrees = weighted_degrees@;
        let ghost view = self@;
        let zero: Binary32 = Binary32::from_bits(0);
        let two: Binary32 = Binary32::from_bits(0x4000_0000);
        let m: Binary32 = self.total_weight;
        let k_i: Binary32 = weighted_degrees[node];
        assert(assignments@.contains_key(node));
        let c_i: CommunityId = assignments_get(assignments, node).unwrap();
        let sigma_i: Binary32 = weights_get(sigma_tot, c_i).unwrap_or(zero);
        let community_weights: CommunityWeights = self.weigh_communities(node, assignments);
        let k_i_to_i: Binary32 = weights_get(&community_weights, c_i).unwrap_or(zero);
        let baseline: Binary32 = k_i_to_i.over(m).minus(
            k_i.times(sigma_i.minus(k_i)).over(two.times(m).times(m)),
        );
        assert(baseline == view.baseline(degrees, at, node));
        let mut best_community: CommunityId = c_i;
        let mut best_gain: Binary32 = zero;
        let entries: Vec<(CommunityId, Binary32)> = weights_entries(&community_weights);
        let ghost keys = entries@.map_values(|entry: (CommunityId, Binary32)| entry.0);
        let mut t: usize = 0;
        while t < entries.len()
            invariant
                view == self@,
                at == (Progress { labels: assignments@, sigma: sigma_tot@ }),
                degrees == weighted_degrees@,
                zero == (Binary32 { bits: 0 }),
                two == (Binary32 { bits: 0x4000_0000 }),
                m == view.total_weight,
                k_i == degrees[node as int],
                c_i == at.labels[node],
                community_weights@ == view.community_weights(at.labels, node),
                crate::tables::lists(entries@, community_weights@),
                keys == entries@.map_values(|entry: (CommunityId, Binary32)| entry.0),
                baseline == view.baseline(degrees, at, node),
                t <= entries.len(),
                best_community == c_i ==> best_gain == zero,
                best_community != c_i ==> view.candidate(at, node, best_community) && best_gain
                    == view.gain(degrees, at, node, best_community) && zero.below(best_gain),
                forall|j: int|
                    0 <= j < t && view.candidate(at, node, #[trigger] keys[j]) ==> !best_gain.below(
                        view.gain(degrees, at, node, keys[j]),
                    ),
            decreases entries.len() - t,
        {
            let (c_j, k_i_to_j) = entries[t];
            proof {
                assert(keys[t as int] == c_j);
                assert(keys.to_set().contains(c_j));
                assert(community_weights@.contains_key(c_j));
                assert(community_weights@[c_j] == k_i_to_j);
            }
            if c_j != c_i {
                let sigma_j: Binary32 = weights_get(sigma_tot, c_j).unwrap_or(zero);
                let score: Binary32 = k_i_to_j.over(m).minus(
                    k_i.times(sigma_j).over(two.times(m).times(m)),
                );
                let gain: Binary32 = score.minus(baseline);
                assert(gain == view.gain(degrees, at, node, c_j));
                assert(view.candidate(at, node, c_j));
                if best_gain.less_than(gain) {
                    best_gain = gain;
                    best_community = c_j;
                }
            }
            t = t + 1;
        }
        proof {
            assert forall|c: CommunityId| #[trigger]
                view.candidate(at, node, c) implies !best_gain.below(view.gain(degrees, at, node, c)) by {
                assert(keys.to_set().contains(c));
                let j = choose|j: int| 0 <= j < keys.len() && keys[j] == c;
                assert(view.candidate(at, node, keys[j]));
            }
        }
        if best_community != c_i {
            Some(LocalMove { node, community: best_community })
        } else {
            None
        }
    }
}

} // verus!
