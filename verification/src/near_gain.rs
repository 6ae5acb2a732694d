//! The gain of a move is near what exact arithmetic gives.

use crate::binary32::Binary32;
use crate::graph::GraphView;
use crate::moves::{weight_or_zero, Progress};
use crate::near_laws::lemma_size_times;
use crate::rounding::{largest, size};
use crate::tables::CommunityId;
use vstd::arithmetic::power2::pow2;
use vstd::prelude::*;

verus! {

/// The size of a sum.
proof fn lemma_size_plus(a: int, b: int)
    ensures
        size(a + b) <= size(a) + size(b),
        size(a - b) <= size(a) + size(b),
        size(-a) == size(a),
{
}

/// A bound on a number bounds its products.
proof fn lemma_scale_bound(d: int, a: int, b: int, c: int)
    requires
        d * size(a) <= b,
    ensures
        d * size(a * c) <= b * size(c),
{
    lemma_size_times(a, c);
    let x = size(a);
    let y = size(c);
    assert(d * (x * y) <= b * y) by (nonlinear_arith)
        requires
            d * x <= b,
            y >= 0,
    ;
}

/// A rounded quotient by a rounded square: `p = z`, `t = w / u`, `q = p / t`.
proof fn lemma_share_bound(u: int, z: int, w: int, p: int, t: int, q: int)
    requires
        u > 0,
        w >= 0x100_0000 * u,
        0x100_0000 * size(p * u - z) <= size(z) + 0x80_0000 * u,
        0x100_0000 * size(t * u - w) <= w + 0x80_0000 * u,
        0x100_0000 * size(q * t - p * u) <= size(p * u) + 0x80_0000 * size(t),
    ensures
        0x100_0000 * size(q * w - u * z) <= 15 * (u * size(z)) + 0x180_0000 * w + 0x100_0000 * (u
            * u),
{
    let tu = t * u;
    assert(2 * size(tu - w) <= w);
    assert(w <= 2 * tu && tu <= 2 * w);
    assert(t > 0) by (nonlinear_arith)
        requires
            tu == t * u,
            tu > 0,
            u > 0,
    ;
    // `p * u * u` and `z * u`.
    let b = (p * u) * u;
    let zu = z * u;
    lemma_scale_bound(0x100_0000, p * u - z, size(z) + 0x80_0000 * u, u);
    assert((p * u - z) * u == b - zu) by (nonlinear_arith)
        requires
            b == (p * u) * u,
            zu == z * u,
    ;
    let s = u * size(z);
    let uu = u * u;
    assert((size(z) + 0x80_0000 * u) * u == s + 0x80_0000 * uu) by (nonlinear_arith)
        requires
            s == u * size(z),
            uu == u * u,
    ;
    lemma_size_times(z, u);
    assert(size(zu) == s) by (nonlinear_arith)
        requires
            size(zu) == size(z) * u,
            s == u * size(z),
    ;
    assert(0x100_0000 * size(b - zu) <= s + 0x80_0000 * uu);
    // `q * t * u`.
    let x = q * tu;
    lemma_scale_bound(0x100_0000, q * t - p * u, size(p * u) + 0x80_0000 * size(t), u);
    assert((q * t - p * u) * u == x - b) by (nonlinear_arith)
        requires
            x == q * tu,
            tu == t * u,
            b == (p * u) * u,
    ;
    lemma_size_times(p * u, u);
    assert((size(p * u) + 0x80_0000 * size(t)) * u == size(b) + 0x80_0000 * tu) by (nonlinear_arith)
        requires
            size(b) == size(p * u) * u,
            size(t) == t,
            tu == t * u,
    ;
    assert(0x100_0000 * size(x - b) <= size(b) + 0x80_0000 * tu);
    // `q * w`.
    let y = q * w;
    lemma_scale_bound(2, tu - w, w, q);
    assert((tu - w) * q == x - y) by (nonlinear_arith)
        requires
            x == q * tu,
            y == q * w,
    ;
    lemma_size_times(q, tu);
    lemma_size_times(q, w);
    assert(w * size(q) <= 2 * size(x)) by (nonlinear_arith)
        requires
            w <= 2 * tu,
            size(x) == size(q) * tu,
            size(q) >= 0,
    ;
    assert(0x100_0000 * size(x - y) <= 3 * size(x)) by {
        lemma_scale_bound(0x100_0000, tu - w, w + 0x80_0000 * u, q);
        let k = size(q);
        assert((w + 0x80_0000 * u) * k <= 3 * size(x)) by (nonlinear_arith)
            requires
                0x80_0000 * u <= w - 0x80_0000 * u,
                2 * w <= 3 * tu + w - 0x80_0000 * u,
                w + 0x80_0000 * u <= 3 * tu,
                size(x) == k * tu,
                k >= 0,
        ;
    }
    assert(size(b) <= 2 * s + uu);
    assert(size(x) <= 2 * size(b) + tu);
    assert(u * z == zu) by (nonlinear_arith)
        requires
            zu == z * u,
    ;
    assert(size(y - zu) <= size(x - y) + size(x - b) + size(b - zu));
}

/// A score: `q1 = l / m`, `q2` near `z / w`, `s = q1 - q2`, where `w` is twice the square of
/// `m`.
proof fn lemma_score_bound(u: int, m: int, l: int, z: int, w: int, q1: int, q2: int, s: int)
    requires
        u > 0,
        w == 2 * m * m,
        0x100_0000 * size(q1 * m - l * u) <= size(l * u) + 0x80_0000 * size(m),
        0x100_0000 * size(q2 * w - u * z) <= 15 * (u * size(z)) + 0x180_0000 * w + 0x100_0000 * (u
            * u),
        0x100_0000 * size(s - (q1 - q2)) <= size(q1 - q2),
    ensures
        0x100_0000 * size(s * w - u * (2 * m * l - z)) <= 4 * (u * size(2 * m * l)) + 20 * (u
            * size(z)) + 0x400_0000 * w + 0x200_0000 * (u * u),
{
    assert(w >= 0) by (nonlinear_arith)
        requires
            w == 2 * m * m,
    ;
    assert(u * u >= 0) by (nonlinear_arith);
    let a = q1 * w;
    let c = u * (2 * m * l);
    let sc = u * size(2 * m * l);
    let sz = u * size(z);
    assert(sz >= 0 && sc >= 0) by (nonlinear_arith)
        requires
            sz == u * size(z),
            sc == u * size(2 * m * l),
            size(z) >= 0,
            size(2 * m * l) >= 0,
            u > 0,
    ;
    lemma_size_times(u, 2 * m * l);
    lemma_size_times(u, z);
    lemma_scale_bound(0x100_0000, q1 * m - l * u, size(l * u) + 0x80_0000 * size(m), 2 * m);
    assert((q1 * m - l * u) * (2 * m) == a - c) by (nonlinear_arith)
        requires
            w == 2 * m * m,
            a == q1 * w,
            c == u * (2 * m * l),
    ;
    lemma_size_times(l * u, 2 * m);
    assert((l * u) * (2 * m) == c) by (nonlinear_arith)
        requires
            c == u * (2 * m * l),
    ;
    lemma_size_times(m, 2 * m);
    assert(m * (2 * m) == w) by (nonlinear_arith)
        requires
            w == 2 * m * m,
    ;
    assert((size(l * u) + 0x80_0000 * size(m)) * size(2 * m) == size(c) + 0x80_0000 * w)
        by (nonlinear_arith)
        requires
            size(c) == size(l * u) * size(2 * m),
            w == size(m) * size(2 * m),
    ;
    assert(0x100_0000 * size(a - c) <= sc + 0x80_0000 * w);
    let b = q2 * w;
    let x = s - (q1 - q2);
    lemma_scale_bound(0x100_0000, x, size(q1 - q2), w);
    lemma_size_times(q1 - q2, w);
    assert((q1 - q2) * w == a - b) by (nonlinear_arith)
        requires
            a == q1 * w,
            b == q2 * w,
    ;
    assert(x * w == s * w - (a - b)) by (nonlinear_arith)
        requires
            x == s - (q1 - q2),
            a == q1 * w,
            b == q2 * w,
    ;
    assert(u * (2 * m * l - z) == c - u * z) by (nonlinear_arith)
        requires
            c == u * (2 * m * l),
    ;
    assert(0x100_0000 * size(x * w) <= size(a - b));
    assert(size(a - b) <= size(a - c) + size(c) + size(b - u * z) + size(u * z));
    assert(size(s * w - (c - u * z)) <= size(x * w) + size(a - c) + size(b - u * z));
}

impl<N, E> GraphView<N, E> {
    /// Where it is neither so small that it comes near nothing nor so large that it comes
    /// near the largest number, the square of the total weight is computed.
    pub(crate) proof fn lemma_square(self)
        requires
            self.total_weight.added(self.total_weight).finite(),
            2 * self.total_weight.amount() * self.total_weight.amount() <= largest() * pow2(149),
        ensures
            self.twice_square().finite(),
            0x100_0000 * size(
                self.twice_square().amount() * pow2(149) - 2 * self.total_weight.amount()
                    * self.total_weight.amount(),
            ) <= 2 * self.total_weight.amount() * self.total_weight.amount() + 0x80_0000 * pow2(
                149,
            ),
    {
        let two = Binary32 { bits: 0x4000_0000 };
        let m = self.total_weight;
        let u = pow2(149) as int;
        crate::binary32::lemma_one_and_two();
        m.lemma_finite_sum(m);
        m.law_doubling_is_exact();
        let twice = m.added(m);
        let a = m.amount();
        assert((2 * u) * a == (2 * a) * u) by (nonlinear_arith);
        crate::rounding::lemma_finite_size(twice);
        lemma_size_times(2 * a, u);
        let l = largest();
        assert(size(2 * a) * u <= l * u) by (nonlinear_arith)
            requires
                size(2 * a) <= l,
                u > 0,
        ;
        assert(two.finite());
        two.law_product_is_finite(m);
        two.law_product_is_near(m, twice);
        let t = two.multiplied(m);
        assert(t.amount() == 2 * a) by (nonlinear_arith)
            requires
                size(t.amount() * u - (2 * u) * a) <= size((2 * a) * u - (2 * u) * a),
                (2 * u) * a == (2 * a) * u,
                u > 0,
        ;
        assert(2 * a * a >= 0) by (nonlinear_arith);
        t.law_product_is_finite(m);
        t.law_product_is_near(m, m);
    }

    /// What a move gains is near the change of modularity that exact arithmetic gives on the
    /// weights to the two communities, the sums kept for them, the weighted degree of the
    /// node, and the total weight. (One is `2^149` units.)
    pub proof fn law_gain_is_near(
        self,
        degrees: Seq<Binary32>,
        at: Progress,
        node: usize,
        c: CommunityId,
    )
        requires
            self.candidate(at, node, c),
            self.gain(degrees, at, node, c).finite(),
            self.total_weight.added(self.total_weight).finite(),
            0x100_0000 * pow2(149) <= 2 * self.total_weight.amount() * self.total_weight.amount()
                <= largest() * pow2(149),
        ensures
            ({
                let u = pow2(149) as int;
                let m = self.total_weight.amount();
                let k = degrees[node as int].amount();
                let own = at.labels[node];
                let weights = self.community_weights(at.labels, node);
                let l = weight_or_zero(weights, c).amount();
                let lo = weight_or_zero(weights, own).amount();
                let z = k * weight_or_zero(at.sigma, c).amount();
                let zo = k * (weight_or_zero(at.sigma, own).amount() - k);
                0x100_0000 * size(
                    self.gain(degrees, at, node, c).amount() * (2 * m * m) - u * (2 * m * (l - lo)
                        - (z - zo)),
                ) <= 8 * (u * (size(2 * m * l) + size(2 * m * lo))) + 64 * (u * (size(z) + size(
                    zo,
                ))) + 0x1000_0000 * (2 * m * m + u * u)
            }),
    {
        let u = pow2(149) as int;
        let total = self.total_weight;
        let m = total.amount();
        let w = 2 * m * m;
        let degree = degrees[node as int];
        let k = degree.amount();
        let own = at.labels[node];
        let weights = self.community_weights(at.labels, node);
        let square = self.twice_square();
        crate::binary32::lemma_one_and_two();
        self.lemma_square();
        total.lemma_finite_sum(total);
        let score = self.score(degrees, at, node, c);
        let stay = self.baseline(degrees, at, node);
        score.lemma_finite_sum(stay.opposite());
        stay.lemma_opposite_finite();
        score.law_difference_is_near(stay, score);
        // The score for the move.
        let links = weight_or_zero(weights, c);
        let kept = weight_or_zero(at.sigma, c);
        let p = degree.multiplied(kept);
        let q1 = links.divided(total);
        let q2 = p.divided(square);
        q1.lemma_finite_sum(q2.opposite());
        q2.lemma_opposite_finite();
        q1.law_difference_is_near(q2, q1);
        links.law_quotient_is_near(total, links);
        p.law_quotient_is_near(square, p);
        degree.law_product_is_near(kept, degree);
        let z = k * kept.amount();
        lemma_share_bound(u, z, w, p.amount(), square.amount(), q2.amount());
        lemma_score_bound(
            u,
            m,
            links.amount(),
            z,
            w,
            q1.amount(),
            q2.amount(),
            score.amount(),
        );
        // The score for staying.
        let inside = weight_or_zero(weights, own);
        let sum = weight_or_zero(at.sigma, own);
        let rest = sum.subtracted(degree);
        let po = degree.multiplied(rest);
        let o1 = inside.divided(total);
        let o2 = po.divided(square);
        o1.lemma_finite_sum(o2.opposite());
        o2.lemma_opposite_finite();
        o1.law_difference_is_near(o2, o1);
        inside.law_quotient_is_near(total, inside);
        po.law_quotient_is_near(square, po);
        degree.law_product_is_near(rest, degree);
        sum.law_difference_is_near(degree, sum);
        let zr = k * rest.amount();
        let zo = k * (sum.amount() - k);
        lemma_share_bound(u, zr, w, po.amount(), square.amount(), o2.amount());
        lemma_score_bound(
            u,
            m,
            inside.amount(),
            zr,
            w,
            o1.amount(),
            o2.amount(),
            stay.amount(),
        );
        lemma_gain_bound(
            u,
            m,
            w,
            links.amount(),
            inside.amount(),
            z,
            k,
            sum.amount() - k,
            rest.amount(),
            score.amount(),
            stay.amount(),
            self.gain(degrees, at, node, c).amount(),
        );
        assert(zo == k * (sum.amount() - k));
    }
}

/// One is more than `2^72` units.
pub(crate) proof fn lemma_unit()
    ensures
        pow2(149) >= 0x100_0000_0000_0000_0000,
{
    vstd::arithmetic::power2::lemma_pow2_adds(77, 72);
    vstd::arithmetic::power2::lemma_pow2_adds(40, 32);
    vstd::arithmetic::power2::lemma2_to64();
    vstd::arithmetic::power2::lemma2_to64_rest();
    vstd::arithmetic::power2::lemma_pow2_pos(77);
    let a = pow2(77) as int;
    let b = pow2(72) as int;
    assert(b == 0x100_0000_0000 * 0x1_0000_0000);
    assert(a * b >= b) by (nonlinear_arith)
        requires
            a >= 1,
            b >= 0,
    ;
}

/// A gain: `g = s - b`, where `s` and `b` are near, and `r` is near `e`.
proof fn lemma_gain_bound(
    u: int,
    m: int,
    w: int,
    l: int,
    lo: int,
    z: int,
    k: int,
    e: int,
    r: int,
    s: int,
    b: int,
    g: int,
)
    requires
        u > 0,
        w == 2 * m * m,
        0x100_0000 * size(r - e) <= size(e),
        0x100_0000 * size(s * w - u * (2 * m * l - z)) <= 4 * (u * size(2 * m * l)) + 20 * (u
            * size(z)) + 0x400_0000 * w + 0x200_0000 * (u * u),
        0x100_0000 * size(b * w - u * (2 * m * lo - k * r)) <= 4 * (u * size(2 * m * lo)) + 20 * (u
            * size(k * r)) + 0x400_0000 * w + 0x200_0000 * (u * u),
        0x100_0000 * size(g - (s - b)) <= size(s - b),
    ensures
        0x100_0000 * size(g * w - u * (2 * m * (l - lo) - (z - k * e))) <= 8 * (u * (size(2 * m * l)
            + size(2 * m * lo))) + 64 * (u * (size(z) + size(k * e))) + 0x1000_0000 * (w + u * u),
{
    assert(w >= 0) by (nonlinear_arith)
        requires
            w == 2 * m * m,
    ;
    let uu = u * u;
    assert(uu >= 0) by (nonlinear_arith)
        requires
            uu == u * u,
    ;
    let sl = u * size(2 * m * l);
    let so = u * size(2 * m * lo);
    let sz = u * size(z);
    let se = u * size(k * e);
    let sr = u * size(k * r);
    assert(sl >= 0 && so >= 0 && sz >= 0 && se >= 0 && sr >= 0) by (nonlinear_arith)
        requires
            u > 0,
            sl == u * size(2 * m * l),
            so == u * size(2 * m * lo),
            sz == u * size(z),
            se == u * size(k * e),
            sr == u * size(k * r),
            size(2 * m * l) >= 0,
            size(2 * m * lo) >= 0,
            size(z) >= 0,
            size(k * e) >= 0,
            size(k * r) >= 0,
    ;
    assert(u * (size(2 * m * l) + size(2 * m * lo)) == sl + so) by (nonlinear_arith)
        requires
            sl == u * size(2 * m * l),
            so == u * size(2 * m * lo),
    ;
    assert(u * (size(z) + size(k * e)) == sz + se) by (nonlinear_arith)
        requires
            sz == u * size(z),
            se == u * size(k * e),
    ;
    // The rest that is left of the sum.
    lemma_scale_bound(0x100_0000, r - e, size(e), k);
    lemma_size_times(e, k);
    assert((r - e) * k == k * r - k * e) by (nonlinear_arith);
    assert(e * k == k * e) by (nonlinear_arith);
    let dk = k * r - k * e;
    assert(0x100_0000 * size(dk) <= size(k * e));
    let du = u * dk;
    lemma_scale_bound(0x100_0000, dk, size(k * e), u);
    assert(dk * u == du) by (nonlinear_arith)
        requires
            du == u * dk,
    ;
    assert(size(k * e) * size(u) == se) by (nonlinear_arith)
        requires
            se == u * size(k * e),
            size(u) == u,
    ;
    assert(0x100_0000 * size(du) <= se);
    assert(sr <= 2 * se) by (nonlinear_arith)
        requires
            sr == u * size(k * r),
            se == u * size(k * e),
            size(k * r) <= 2 * size(k * e),
            u > 0,
    ;
    // The difference.
    let x = g - (s - b);
    lemma_scale_bound(0x100_0000, x, size(s - b), w);
    lemma_size_times(s - b, w);
    let sw = s * w;
    let bw = b * w;
    assert((s - b) * w == sw - bw) by (nonlinear_arith)
        requires
            sw == s * w,
            bw == b * w,
    ;
    assert(x * w == g * w - (sw - bw)) by (nonlinear_arith)
        requires
            x == g - (s - b),
            sw == s * w,
            bw == b * w,
    ;
    let al = u * (2 * m * l);
    let ao = u * (2 * m * lo);
    let az = u * z;
    let ae = u * (k * e);
    lemma_size_times(u, 2 * m * l);
    lemma_size_times(u, 2 * m * lo);
    lemma_size_times(u, z);
    lemma_size_times(u, k * e);
    assert(u * (2 * m * l - z) == al - az) by (nonlinear_arith)
        requires
            al == u * (2 * m * l),
            az == u * z,
    ;
    assert(u * (2 * m * lo - k * r) == ao - ae - du) by (nonlinear_arith)
        requires
            ao == u * (2 * m * lo),
            ae == u * (k * e),
            du == u * (k * r - k * e),
    ;
    assert(u * (2 * m * (l - lo) - (z - k * e)) == al - ao - az + ae) by (nonlinear_arith)
        requires
            al == u * (2 * m * l),
            ao == u * (2 * m * lo),
            az == u * z,
            ae == u * (k * e),
    ;
    let es = sw - (al - az);
    let eb = bw - (ao - ae - du);
    assert(0x100_0000 * size(es) <= 4 * sl + 20 * sz + 0x400_0000 * w + 0x200_0000 * uu);
    assert(0x100_0000 * size(eb) <= 4 * so + 40 * se + 0x400_0000 * w + 0x200_0000 * uu);
    assert(0x100_0000 * size(x * w) <= size(sw - bw));
    assert(size(sw - bw) <= size(es) + size(eb) + sl + so + sz + se + size(du));
    assert(size(g * w - (al - ao - az + ae)) <= size(x * w) + size(es) + size(eb) + size(du));
}

} // verus!
