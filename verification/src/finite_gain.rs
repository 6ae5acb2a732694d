//! The gain of a move is a finite number, for weights of ordinary size.

use crate::binary32::Binary32;
use crate::graph::GraphView;
use crate::moves::{weight_or_zero, Progress};
use crate::near_laws::lemma_size_times;
use crate::rounding::{largest, size};
use crate::tables::CommunityId;
use vstd::arithmetic::power2::pow2;
use vstd::prelude::*;

verus! {

/// The largest finite number is above `2^127`.
proof fn lemma_above()
    ensures
        largest() >= 0x8000_0000_0000_0000_0000_0000_0000_0000 * pow2(149),
        pow2(149) >= 1,
{
    crate::rounding::lemma_largest();
    crate::binary32::lemma_one_and_two();
    vstd::arithmetic::power2::lemma_pow2_adds(104, 149);
    vstd::arithmetic::power2::lemma_pow2_adds(52, 52);
    vstd::arithmetic::power2::lemma_pow2_adds(26, 26);
    vstd::arithmetic::power2::lemma2_to64();
    assert(pow2(26) == 0x400_0000);
    assert(pow2(52) == 0x400_0000 * 0x400_0000);
    assert(pow2(104) == (0x400_0000 * 0x400_0000) * (0x400_0000 * 0x400_0000)) by (nonlinear_arith)
        requires
            pow2(104) == pow2(52) * pow2(52),
            pow2(52) == 0x400_0000 * 0x400_0000,
    ;
    let a = pow2(104) as int;
    let u = pow2(149) as int;
    assert(0xff_ffff * (a * u) >= 0x8000_0000_0000_0000_0000_0000_0000_0000 * u) by (nonlinear_arith)
        requires
            a == (0x400_0000 * 0x400_0000) * (0x400_0000 * 0x400_0000),
            u > 0,
    ;
}

/// The product of sizes.
proof fn lemma_product_size(a: int, b: int, x: int, y: int)
    requires
        size(a) <= x,
        size(b) <= y,
    ensures
        size(a * b) <= x * y,
{
    lemma_size_times(a, b);
    let c = size(a);
    let d = size(b);
    assert(c * d <= x * y) by (nonlinear_arith)
        requires
            0 <= c <= x,
            0 <= d <= y,
    ;
}

/// A quotient by a number that is not too small.
proof fn lemma_quotient_finite(a: Binary32, b: Binary32, most: int, least: int)
    requires
        a.finite(),
        b.finite(),
        least > 0,
        most >= 1,
        size(a.amount()) <= most * pow2(149),
        least * size(b.amount()) >= pow2(149),
        most * least <= 0x1000_0000_0000_0000_0000_0000_0000_0000,
    ensures
        a.divided(b).finite(),
        size(a.divided(b).amount()) <= (4 * most * least) * pow2(149),
{
    let u = pow2(149) as int;
    lemma_above();
    let x = size(a.amount());
    let y = size(b.amount());
    assert(y > 0) by (nonlinear_arith)
        requires
            least * y >= u,
            u >= 1,
            least > 0,
            y >= 0,
    ;
    lemma_size_times(a.amount(), u);
    let l = largest();
    let top = 0x8000_0000_0000_0000_0000_0000_0000_0000int;
    assert(x * u <= (most * least) * u * y) by (nonlinear_arith)
        requires
            x <= most * u,
            u <= least * y,
            u >= 1,
            most >= 1,
            y > 0,
    {
        assert(x * u <= (most * u) * u);
        assert((most * u) * u <= (most * u) * (least * y));
        assert((most * u) * (least * y) == (most * least) * u * y);
    }
    assert((most * least) * u * y <= l * y) by (nonlinear_arith)
        requires
            most * least <= top,
            top * u <= l,
            u >= 1,
            y > 0,
    {
        assert((most * least) * u <= top * u);
    }
    a.law_quotient_is_finite(b);
    a.law_quotient_is_near(b, a);
    let q = size(a.divided(b).amount());
    lemma_size_times(a.divided(b).amount(), b.amount());
    assert(q * y <= 2 * (x * u) + y);
    assert(q <= (4 * most * least) * u) by (nonlinear_arith)
        requires
            q * y <= 2 * (x * u) + y,
            x * u <= (most * least) * u * y,
            y > 0,
            u >= 1,
            most >= 1,
            least > 0,
    {
        let n = (most * least) * u;
        assert(n >= 1);
        assert(q * y <= (2 * n + 1) * y);
        assert(q <= 2 * n + 1);
        assert((4 * most * least) * u == 4 * n);
    }
}

/// A product over a number that is not too small.
proof fn lemma_share_finite(k: Binary32, x: Binary32, square: Binary32)
    requires
        k.finite(),
        x.finite(),
        square.finite(),
        size(k.amount()) <= 0x4000_0000 * pow2(149),
        size(x.amount()) <= 0x1_0000_0000 * pow2(149),
        0x100_0000_0000 * size(square.amount()) >= pow2(149),
    ensures
        k.multiplied(x).finite(),
        k.multiplied(x).divided(square).finite(),
        size(k.multiplied(x).divided(square).amount()) <= 0x400_0000_0000_0000_0000_0000_0000
            * pow2(149),
{
    let u = pow2(149) as int;
    lemma_above();
    let l = largest();
    lemma_product_size(
        k.amount(),
        x.amount(),
        0x4000_0000 * u,
        0x1_0000_0000 * u,
    );
    let z = size(k.amount() * x.amount());
    assert(z <= 0x4000_0000_0000_0000 * u * u) by (nonlinear_arith)
        requires
            z <= (0x4000_0000 * u) * (0x1_0000_0000 * u),
    ;
    assert(z <= l * u) by (nonlinear_arith)
        requires
            z <= 0x4000_0000_0000_0000 * u * u,
            l >= 0x8000_0000_0000_0000_0000_0000_0000_0000 * u,
            u >= 1,
    {
        assert(0x4000_0000_0000_0000 * u <= l);
    }
    k.law_product_is_finite(x);
    k.law_product_is_near(x, k);
    let p = k.multiplied(x);
    lemma_size_times(p.amount(), u);
    let a = size(p.amount());
    assert(a * u <= 2 * z + u);
    assert(a <= 0x1_0000_0000_0000_0000 * u) by (nonlinear_arith)
        requires
            a * u <= 2 * z + u,
            z <= 0x4000_0000_0000_0000 * u * u,
            u >= 1,
    {
        assert(a * u <= (0x8000_0000_0000_0000 * u + 1) * u);
        assert(a <= 0x8000_0000_0000_0000 * u + 1);
    }
    lemma_quotient_finite(p, square, 0x1_0000_0000_0000_0000, 0x100_0000_0000);
}

impl<N, E> GraphView<N, E> {
    /// A number is finite and of ordinary size: at most `2^30`. (One is `2^149` units.)
    pub open spec fn ordinary(x: Binary32) -> bool {
        x.finite() && size(x.amount()) <= 0x4000_0000 * pow2(149)
    }

    /// What a move gains is finite, where the weights to the two communities, the sums kept
    /// for them, the weighted degree of the node, and the total weight are of ordinary size,
    /// and the total weight is at least `2^-20`.
    pub proof fn law_gain_is_finite(
        self,
        degrees: Seq<Binary32>,
        at: Progress,
        node: usize,
        c: CommunityId,
    )
        requires
            self.candidate(at, node, c),
            Self::ordinary(self.total_weight),
            0x10_0000 * size(self.total_weight.amount()) >= pow2(149),
            Self::ordinary(degrees[node as int]),
            Self::ordinary(weight_or_zero(self.community_weights(at.labels, node), c)),
            Self::ordinary(
                weight_or_zero(self.community_weights(at.labels, node), at.labels[node]),
            ),
            Self::ordinary(weight_or_zero(at.sigma, c)),
            Self::ordinary(weight_or_zero(at.sigma, at.labels[node])),
        ensures
            self.gain(degrees, at, node, c).finite(),
    {
        let u = pow2(149) as int;
        lemma_above();
        let total = self.total_weight;
        let m = total.amount();
        let l = largest();
        let degree = degrees[node as int];
        let own = at.labels[node];
        let weights = self.community_weights(at.labels, node);
        // Twice the square of the total weight.
        total.law_sum_is_finite(total);
        lemma_product_size(m, m, 0x4000_0000 * u, 0x4000_0000 * u);
        assert(2 * m * m <= l * u) by (nonlinear_arith)
            requires
                m * m <= (0x4000_0000 * u) * (0x4000_0000 * u),
                l >= 0x8000_0000_0000_0000_0000_0000_0000_0000 * u,
                u >= 1,
        {
            assert(2 * (m * m) <= (0x2000_0000_0000_0000 * u) * u);
            assert((0x2000_0000_0000_0000 * u) * u <= l * u);
        }
        self.lemma_square();
        let square = self.twice_square();
        let t = square.amount();
        lemma_size_times(m, m);
        assert(m * m >= 0) by (nonlinear_arith);
        assert(0x100_0000_0000 * (m * m) >= u * u) by (nonlinear_arith)
            requires
                m * m == size(m) * size(m),
                0x10_0000 * size(m) >= u,
                u >= 1,
        {
            assert((0x10_0000 * size(m)) * (0x10_0000 * size(m)) >= u * u);
        }
        crate::near_gain::lemma_unit();
        assert(0x100_0000_0000 * t >= u) by (nonlinear_arith)
            requires
                0x100_0000 * size(t * u - 2 * m * m) <= 2 * m * m + 0x80_0000 * u,
                0x100_0000_0000 * (m * m) >= u * u,
                u >= 0x100_0000_0000_0000_0000,
        {
            assert(2 * m * m == 2 * (m * m));
            assert(u * u >= 0x100_0000_0000_0000_0000 * u);
            assert(0x100_0000 * (m * m) >= 0x80_0000 * u);
            assert(t * u >= m * m);
            assert(0x100_0000_0000 * (t * u) >= u * u);
            assert((0x100_0000_0000 * t) * u >= u * u);
        }
        // The score for the move.
        let links = weight_or_zero(weights, c);
        let kept = weight_or_zero(at.sigma, c);
        lemma_quotient_finite(links, total, 0x4000_0000, 0x10_0000);
        lemma_share_finite(degree, kept, square);
        let q1 = links.divided(total);
        assert(size(q1.amount()) <= 0x10_0000_0000_0000 * u) by (nonlinear_arith)
            requires
                size(q1.amount()) <= (4 * 0x4000_0000 * 0x10_0000) * u,
        ;
        let q2 = degree.multiplied(kept).divided(square);
        q1.law_difference_is_finite(q2);
        q1.law_difference_is_near(q2, q1);
        // The score for staying.
        let inside = weight_or_zero(weights, own);
        let sum = weight_or_zero(at.sigma, own);
        sum.law_difference_is_finite(degree);
        sum.law_difference_is_near(degree, sum);
        let rest = sum.subtracted(degree);
        lemma_quotient_finite(inside, total, 0x4000_0000, 0x10_0000);
        lemma_share_finite(degree, rest, square);
        let o1 = inside.divided(total);
        assert(size(o1.amount()) <= 0x10_0000_0000_0000 * u) by (nonlinear_arith)
            requires
                size(o1.amount()) <= (4 * 0x4000_0000 * 0x10_0000) * u,
        ;
        let o2 = degree.multiplied(rest).divided(square);
        o1.law_difference_is_finite(o2);
        o1.law_difference_is_near(o2, o1);
        self.score(degrees, at, node, c).law_difference_is_finite(
            self.baseline(degrees, at, node),
        );
    }
}

} // verus!
