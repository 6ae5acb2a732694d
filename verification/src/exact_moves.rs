//! Gains that need no rounding.
//!
//! Where no sum, difference, product or quotient rounds, the gain of a move is the change
//! of modularity, and nodes decide as in exact arithmetic.

use crate::binary32::Binary32;
use crate::graph::GraphView;
use crate::modularity::LocalMove;
use crate::moves::{weight_or_zero, Progress};
use crate::tables::CommunityId;
use vstd::arithmetic::power2::pow2;
use vstd::prelude::*;

verus! {

impl<N, E> GraphView<N, E> {
    /// Adding up the weighted degree of `a` needs no rounding.
    pub open spec fn degree_is_exact(self, a: usize) -> bool {
        let n = self.nodes.len() as int;
        let inner = self.inner[a as int];
        &&& forall|b: int|
            0 <= b < n && self.adjacent(a, b as usize) ==> (#[trigger] self.degree_below(
                a,
                b,
            )).sum_is_exact(self.weight(a, b as usize))
        &&& inner.sum_is_exact(inner)
        &&& self.degree_below(a, n).sum_is_exact(inner.added(inner))
    }

    proof fn lemma_degree_below_exact(self, a: usize, b: int)
        requires
            self.degree_is_exact(a),
            b <= self.nodes.len() <= usize::MAX,
        ensures
            self.degree_below(a, b).amount() == self.exact_degree_below(a, b),
        decreases b,
    {
        if 0 < b {
            self.lemma_degree_below_exact(a, b - 1);
            let _ = self.degree_below(a, b - 1);
        } else {
            crate::binary32::lemma_zero_amount();
        }
    }

    /// Where adding it up needs no rounding, the weighted degree is the exact one.
    pub proof fn law_degree_is_exact(self, a: usize)
        requires
            self.degree_is_exact(a),
            self.nodes.len() <= usize::MAX,
        ensures
            self.weighted_degree(a).amount() == self.exact_degree(a),
    {
        self.lemma_degree_below_exact(a, self.nodes.len() as int);
    }

    /// Adding up the weights from `a` by community needs no rounding.
    pub open spec fn links_are_exact(self, labels: Map<usize, CommunityId>, a: usize) -> bool {
        forall|b: int|
            0 <= b < self.nodes.len() && self.adjacent(a, b as usize) ==> weight_or_zero(
                #[trigger] self.weights_below(labels, a, b),
                labels[b as usize],
            ).sum_is_exact(self.weight(a, b as usize))
    }

    proof fn lemma_links_exact(
        self,
        labels: Map<usize, CommunityId>,
        a: usize,
        c: CommunityId,
        b: int,
    )
        requires
            self.links_are_exact(labels, a),
            b <= self.nodes.len() <= usize::MAX,
        ensures
            weight_or_zero(self.weights_below(labels, a, b), c).amount() == self.exact_links_below(
                labels,
                a,
                c,
                b,
            ),
        decreases b,
    {
        if 0 < b {
            self.lemma_links_exact(labels, a, c, b - 1);
            let _ = self.weights_below(labels, a, b - 1);
        } else {
            crate::binary32::lemma_zero_amount();
        }
    }

    /// The sums that are kept for the communities are those of the exact degrees of their
    /// nodes.
    pub open spec fn tracks(self, at: Progress) -> bool {
        &&& forall|node: usize|
            node < self.nodes.len() ==> at.sigma.contains_key(#[trigger] at.labels[node])
        &&& forall|c: CommunityId| #[trigger]
            weight_or_zero(at.sigma, c).amount() == self.exact_sum(at.labels, c)
    }

    proof fn lemma_sum_moved(
        self,
        labels: Map<usize, CommunityId>,
        node: usize,
        c: CommunityId,
        d: CommunityId,
        b: int,
    )
        requires
            b <= usize::MAX,
        ensures
            self.exact_sum_below(labels.insert(node, c), d, b) == self.exact_sum_below(labels, d, b)
                + if node < b && d == c {
                self.exact_degree(node)
            } else {
                0
            } - if node < b && d == labels[node] {
                self.exact_degree(node)
            } else {
                0
            },
        decreases b,
    {
        if 0 < b {
            self.lemma_sum_moved(labels, node, c, d, b - 1);
        }
    }

    /// Keeping the sums up to date when a move is made needs no rounding.
    pub open spec fn update_is_exact(
        self,
        degrees: Seq<Binary32>,
        at: Progress,
        local_move: LocalMove,
    ) -> bool {
        let k = degrees[local_move.node as int];
        let own = at.labels[local_move.node];
        let left = at.sigma.insert(own, at.sigma[own].subtracted(k));
        &&& at.sigma[own].difference_is_exact(k)
        &&& weight_or_zero(left, local_move.community).sum_is_exact(k)
    }

    /// Where keeping them up to date needs no rounding, the sums stay those of the exact
    /// degrees.
    pub proof fn law_moves_keep_track(
        self,
        degrees: Seq<Binary32>,
        at: Progress,
        local_move: LocalMove,
    )
        requires
            self.nodes.len() <= usize::MAX,
            local_move.node < self.nodes.len(),
            degrees[local_move.node as int].amount() == self.exact_degree(local_move.node),
            self.tracks(at),
            local_move.community != at.labels[local_move.node],
            self.update_is_exact(degrees, at, local_move),
        ensures
            self.tracks(at.after(degrees, local_move)),
    {
        let to = at.after(degrees, local_move);
        let k = degrees[local_move.node as int];
        let own = at.labels[local_move.node];
        let c = local_move.community;
        let left = at.sigma.insert(own, at.sigma[own].subtracted(k));
        assert(at.sigma.contains_key(own));
        assert forall|d: CommunityId| #[trigger]
            weight_or_zero(to.sigma, d).amount() == self.exact_sum(to.labels, d) by {
            self.lemma_sum_moved(at.labels, local_move.node, c, d, self.nodes.len() as int);
            assert(weight_or_zero(at.sigma, d).amount() == self.exact_sum(at.labels, d));
            assert(weight_or_zero(left, c) == weight_or_zero(at.sigma, c));
        }
        assert forall|node: usize| node < self.nodes.len() implies to.sigma.contains_key(
            #[trigger] to.labels[node],
        ) by {
            assert(at.sigma.contains_key(at.labels[node]));
        }
    }

    /// Computing the score of `node` for staying where it is needs no rounding.
    pub open spec fn baseline_is_exact(
        self,
        degrees: Seq<Binary32>,
        at: Progress,
        node: usize,
    ) -> bool {
        let k = degrees[node as int];
        let own = at.labels[node];
        let inside = weight_or_zero(self.community_weights(at.labels, node), own);
        let sum = weight_or_zero(at.sigma, own);
        let product = k.multiplied(sum.subtracted(k));
        &&& inside.quotient_is_exact(self.total_weight)
        &&& sum.difference_is_exact(k)
        &&& k.product_is_exact(sum.subtracted(k))
        &&& product.quotient_is_exact(self.twice_square())
        &&& inside.divided(self.total_weight).difference_is_exact(
            product.divided(self.twice_square()),
        )
    }

    /// Computing the score of `node` for a move to `c` needs no rounding.
    pub open spec fn score_is_exact(
        self,
        degrees: Seq<Binary32>,
        at: Progress,
        node: usize,
        c: CommunityId,
    ) -> bool {
        let k = degrees[node as int];
        let links = self.community_weights(at.labels, node)[c];
        let sum = weight_or_zero(at.sigma, c);
        &&& links.quotient_is_exact(self.total_weight)
        &&& k.product_is_exact(sum)
        &&& k.multiplied(sum).quotient_is_exact(self.twice_square())
        &&& links.divided(self.total_weight).difference_is_exact(
            k.multiplied(sum).divided(self.twice_square()),
        )
    }

    /// Computing the gain of a move of `node` to `c` needs no rounding.
    pub open spec fn gain_is_exact(
        self,
        degrees: Seq<Binary32>,
        at: Progress,
        node: usize,
        c: CommunityId,
    ) -> bool {
        let two = Binary32 { bits: 0x4000_0000 };
        &&& two.product_is_exact(self.total_weight)
        &&& two.multiplied(self.total_weight).product_is_exact(self.total_weight)
        &&& self.baseline_is_exact(degrees, at, node)
        &&& self.score_is_exact(degrees, at, node, c)
        &&& self.score(degrees, at, node, c).difference_is_exact(
            self.baseline(degrees, at, node),
        )
    }

    /// Where computing it needs no rounding, the gain of a move is the change of modularity
    /// in exact arithmetic, over twice the square of the total weight. (One is `2^149`
    /// units.)
    pub proof fn law_gain_is_exact(
        self,
        degrees: Seq<Binary32>,
        at: Progress,
        node: usize,
        c: CommunityId,
    )
        requires
            self.nodes.len() <= usize::MAX,
            self.balanced(),
            degrees[node as int].amount() == self.exact_degree(node),
            self.tracks(at),
            self.links_are_exact(at.labels, node),
            self.candidate(at, node, c),
            self.gain_is_exact(degrees, at, node, c),
        ensures
            self.gain(degrees, at, node, c).amount() * (2 * self.exact_total()
                * self.exact_total()) == pow2(149) * self.exact_gain(at.labels, node, c),
            self.exact_total() != 0,
    {
        let n = self.nodes.len() as int;
        let own = at.labels[node];
        let u = pow2(149) as int;
        let m = self.exact_total();
        let k = self.exact_degree(node);
        let two = Binary32 { bits: 0x4000_0000 };
        let weights = self.community_weights(at.labels, node);
        crate::binary32::lemma_one_and_two();
        self.lemma_links_exact(at.labels, node, c, n);
        self.lemma_links_exact(at.labels, node, own, n);
        assert(weight_or_zero(at.sigma, c).amount() == self.exact_sum(at.labels, c));
        assert(weight_or_zero(at.sigma, own).amount() == self.exact_sum(at.labels, own));
        let lc = self.exact_links(at.labels, node, c);
        let lo = self.exact_links(at.labels, node, own);
        let sc = self.exact_sum(at.labels, c);
        let so = self.exact_sum(at.labels, own);
        let t1 = two.multiplied(self.total_weight).amount();
        let t2 = self.twice_square().amount();
        let degree = degrees[node as int];
        let pc = degree.multiplied(weight_or_zero(at.sigma, c));
        let left = weight_or_zero(at.sigma, own).subtracted(degree);
        let po = degree.multiplied(left);
        lemma_fraction(
            u,
            m,
            lc,
            k,
            sc,
            weights[c].divided(self.total_weight).amount(),
            pc.amount(),
            t1,
            t2,
            pc.divided(self.twice_square()).amount(),
        );
        lemma_fraction(
            u,
            m,
            lo,
            k,
            so - k,
            weight_or_zero(weights, own).divided(self.total_weight).amount(),
            po.amount(),
            t1,
            t2,
            po.divided(self.twice_square()).amount(),
        );
        let s = self.score(degrees, at, node, c).amount();
        let b = self.baseline(degrees, at, node).amount();
        assert((s - b) * (2 * m * m) == s * (2 * m * m) - b * (2 * m * m)) by (nonlinear_arith);
        assert(u * (2 * m * lc - k * sc) - u * (2 * m * lo - k * (so - k)) == u * (2 * m * (lc - lo)
            - k * (sc - (so - k)))) by (nonlinear_arith);
    }

    /// What `node` computes to decide on its move needs no rounding, and neither does
    /// making the move.
    pub open spec fn computes_exactly(
        self,
        degrees: Seq<Binary32>,
        at: Progress,
        node: usize,
    ) -> bool {
        &&& self.links_are_exact(at.labels, node)
        &&& forall|c: CommunityId| #[trigger]
            self.candidate(at, node, c) ==> self.gain_is_exact(degrees, at, node, c)
        &&& forall|local_move: LocalMove| #[trigger]
            self.chooses(degrees, at, node, Some(local_move)) ==> self.update_is_exact(
                degrees,
                at,
                local_move,
            )
    }

    /// Where what a node computes needs no rounding, it decides as in exact arithmetic.
    pub proof fn law_exact_operations_decide(
        self,
        degrees: Seq<Binary32>,
        at: Progress,
        node: usize,
    )
        requires
            self.nodes.len() <= usize::MAX,
            self.balanced(),
            degrees[node as int].amount() == self.exact_degree(node),
            self.tracks(at),
            self.computes_exactly(degrees, at, node),
        ensures
            self.decides_exactly(degrees, at, node),
    {
        let m = self.exact_total();
        let square = 2 * m * m;
        let u = pow2(149) as int;
        crate::binary32::lemma_one_and_two();
        crate::binary32::lemma_zero_amount();
        assert(m != 0 ==> square > 0) by (nonlinear_arith)
            requires
                square == 2 * m * m,
        ;
        assert forall|c: CommunityId| #[trigger] self.candidate(at, node, c) implies (
        self.improves(degrees, at, node, c) <==> self.exact_gain(at.labels, node, c) > 0) by {
            self.law_gain_is_exact(degrees, at, node, c);
            lemma_scaled(
                0,
                self.gain(degrees, at, node, c).amount(),
                0,
                self.exact_gain(at.labels, node, c),
                square,
                u,
            );
        }
        assert forall|c: CommunityId, d: CommunityId| #[trigger]
            self.candidate(at, node, c) && #[trigger] self.candidate(at, node, d) implies (
        self.gain(degrees, at, node, c).below(self.gain(degrees, at, node, d))
            <==> self.exact_gain(at.labels, node, c) < self.exact_gain(at.labels, node, d)) by {
            self.law_gain_is_exact(degrees, at, node, c);
            self.law_gain_is_exact(degrees, at, node, d);
            lemma_scaled(
                self.gain(degrees, at, node, c).amount(),
                self.gain(degrees, at, node, d).amount(),
                self.exact_gain(at.labels, node, c),
                self.exact_gain(at.labels, node, d),
                square,
                u,
            );
        }
    }
}

/// A score without rounding: with `q1 = l / m` and `q2 = (k * s) / (2 * m * m)`.
proof fn lemma_fraction(
    u: int,
    m: int,
    l: int,
    k: int,
    s: int,
    q1: int,
    p: int,
    t1: int,
    t2: int,
    q2: int,
)
    requires
        u > 0,
        q1 * m == l * u,
        p * u == k * s,
        t1 * u == (2 * u) * m,
        t2 * u == t1 * m,
        q2 * t2 == p * u,
    ensures
        (q1 - q2) * (2 * m * m) == u * (2 * m * l - k * s),
{
    assert(t1 == 2 * m) by (nonlinear_arith)
        requires
            u > 0,
            t1 * u == (2 * u) * m,
    ;
    assert(q2 * (2 * m * m) == u * (k * s)) by (nonlinear_arith)
        requires
            t2 * u == (2 * m) * m,
            q2 * t2 == p * u,
            p * u == k * s,
    {
        assert(q2 * (2 * m * m) == q2 * (t2 * u));
        assert(q2 * (t2 * u) == (q2 * t2) * u);
    }
    assert(q1 * (2 * m * m) == u * (2 * m * l)) by (nonlinear_arith)
        requires
            q1 * m == l * u,
    {
        assert(q1 * (2 * m * m) == 2 * m * (q1 * m));
        assert(2 * m * (l * u) == u * (2 * m * l));
    }
    assert((q1 - q2) * (2 * m * m) == q1 * (2 * m * m) - q2 * (2 * m * m)) by (nonlinear_arith);
    assert(u * (2 * m * l - k * s) == u * (2 * m * l) - u * (k * s)) by (nonlinear_arith);
}

/// Amounts compare as what they are multiples of.
pub(crate) proof fn lemma_scaled(a: int, b: int, x: int, y: int, square: int, u: int)
    requires
        square > 0,
        u > 0,
        a * square == u * x,
        b * square == u * y,
    ensures
        a < b <==> x < y,
{
    assert(a < b ==> x < y) by (nonlinear_arith)
        requires
            square > 0,
            u > 0,
            a * square == u * x,
            b * square == u * y,
    {
        if a < b {
            assert(a * square < b * square);
        }
    }
    assert(x < y ==> a < b) by (nonlinear_arith)
        requires
            square > 0,
            u > 0,
            a * square == u * x,
            b * square == u * y,
    {
        if x < y {
            assert(u * x < u * y);
        }
    }
}

} // verus!
