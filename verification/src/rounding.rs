//! How far rounding leads.
//!
//! A result is the nearest number to what exact arithmetic gives, so one operation is off by
//! at most one part in `2^24`, and a sum of many terms by no more than that grows to.

use crate::binary32::{amount_of, nearest, Binary32, INFINITE, STEP};
use vstd::arithmetic::power::pow;
use vstd::arithmetic::power2::{lemma_pow2_pos, pow2};
use vstd::prelude::*;

verus! {

/// The absolute value.
pub open spec fn size(x: int) -> int {
    if x < 0 {
        -x
    } else {
        x
    }
}

/// `found` is off from `exact` by no more than `steps` roundings of values up to `whole` can
/// lead: by the factor `(1 + 2^-24)^steps - 1`.
pub open spec fn near(found: int, exact: int, whole: int, steps: nat) -> bool {
    pow(0x100_0000, steps) * size(found - exact) <= (pow(0x100_0001, steps) - pow(
        0x100_0000,
        steps,
    )) * whole
}

/// The nearest pattern to a fraction, and how far it is from it.
proof fn lemma_distance(n: nat, d: nat, s: nat)
    requires
        d > 0,
        nearest(n, d) < INFINITE,
    ensures
        0x100_0000 * size(amount_of(nearest(n, d)) * d - n) <= n + 0x80_0000 * d,
        d == 1 ==> 0x100_0000 * size(amount_of(nearest(n, d)) - n) <= n,
        size(amount_of(nearest(n, d)) * d - n) <= size(amount_of(s) * d - n),
{
    let r = nearest(n, d);
    crate::binary32::law_nearest_is_nearest(n, d, r);
    let a = amount_of(r);
    let (e, q) = crate::binary32::lemma_split(r);
    let p = pow2(e);
    lemma_pow2_pos(e);
    let next = amount_of(r + 1);
    vstd::arithmetic::power2::lemma2_to64();
    assert((a + next) * d == a * d + next * d) by (nonlinear_arith);
    assert(next * d == a * d + p * d) by (nonlinear_arith)
        requires
            a == q * p,
            next == (q + 1) * p,
    ;
    if d == 1 {
        assert(a * d == a) by (nonlinear_arith)
            requires
                d == 1,
        ;
    }
    if n >= a * d {
        assert(2 * (n - a * d) <= p * d);
        if e > 0 {
            assert(0x80_0000 * (p * d) <= a * d) by (nonlinear_arith)
                requires
                    a == q * p,
                    q >= 0x80_0000,
                    p > 0,
                    d > 0,
            ;
        } else {
            assert(p * d == d) by (nonlinear_arith)
                requires
                    p == 1,
            ;
        }
        if s > r {
            crate::binary32::lemma_order(r + 1, s);
            lemma_times(next, amount_of(s), d);
        } else {
            crate::binary32::lemma_order(s, r);
            lemma_times(amount_of(s), a, d);
        }
    } else {
        if r == 0 {
            crate::binary32::lemma_order(0, 0);
            assert(0 * d == 0) by (nonlinear_arith);
        }
        let before = (r - 1) as nat;
        let (e2, q2) = crate::binary32::lemma_split(before);
        let p2 = pow2(e2);
        lemma_pow2_pos(e2);
        let z = amount_of(before);
        assert((z + a) * d == z * d + a * d) by (nonlinear_arith);
        assert(a * d == z * d + p2 * d) by (nonlinear_arith)
            requires
                z == q2 * p2,
                a == (q2 + 1) * p2,
        ;
        assert(2 * (a * d - n) <= p2 * d);
        if e2 > 0 {
            assert(0x80_0000 * (p2 * d) <= z * d) by (nonlinear_arith)
                requires
                    z == q2 * p2,
                    q2 >= 0x80_0000,
                    p2 > 0,
                    d > 0,
            ;
        } else {
            assert(p2 * d == d) by (nonlinear_arith)
                requires
                    p2 == 1,
            ;
        }
        if s < r {
            crate::binary32::lemma_order(s, before);
            lemma_times(amount_of(s), z, d);
        } else {
            crate::binary32::lemma_order(r, s);
            lemma_times(a, amount_of(s), d);
        }
    }
}

proof fn lemma_times(a: nat, b: nat, d: nat)
    requires
        a <= b,
    ensures
        a * d <= b * d,
{
    assert(a * d <= b * d) by (nonlinear_arith)
        requires
            a <= b,
    ;
}

/// What a pattern with a sign stands for.
proof fn lemma_signed(negative: bool, mag: nat)
    requires
        mag <= INFINITE,
    ensures
        crate::binary32::signed(negative, mag).mag() == mag,
        crate::binary32::signed(negative, mag).amount() == if negative {
            -(amount_of(mag) as int)
        } else {
            amount_of(mag) as int
        },
{
    crate::binary32::lemma_order(0, 0);
}

impl Binary32 {
    /// What is added up to a finite sum is finite.
    pub(crate) proof fn lemma_finite_sum(self, b: Binary32)
        requires
            self.added(b).finite(),
        ensures
            self.finite(),
            b.finite(),
    {
    }

    /// A finite sum is nearest to the exact one of all numbers, `c` included, and off by at
    /// most one part in `2^24`.
    pub proof fn law_sum_is_near(self, b: Binary32, c: Binary32)
        requires
            self.added(b).finite(),
        ensures
            size(self.added(b).amount() - (self.amount() + b.amount())) <= size(
                c.amount() - (self.amount() + b.amount()),
            ),
            0x100_0000 * size(self.added(b).amount() - (self.amount() + b.amount())) <= size(
                self.amount() + b.amount(),
            ),
    {
        let exact = self.amount() + b.amount();
        let n = size(exact) as nat;
        crate::binary32::lemma_order(0, 0);
        crate::binary32::law_nearest_is_nearest(n, 1, 0);
        lemma_signed(exact < 0, nearest(n, 1));
        if exact != 0 {
            lemma_distance(n, 1, c.mag());
            lemma_distance(n, 1, 0);
            assert(amount_of(nearest(n, 1)) * 1 == amount_of(nearest(n, 1)));
            assert(amount_of(c.mag()) * 1 == amount_of(c.mag()));
        } else {
            lemma_signed(self.negative() && b.negative(), 0);
        }
    }

    /// A finite difference is nearest to the exact one of all numbers, `c` included, and off
    /// by at most one part in `2^24`.
    pub proof fn law_difference_is_near(self, b: Binary32, c: Binary32)
        requires
            self.subtracted(b).finite(),
        ensures
            size(self.subtracted(b).amount() - (self.amount() - b.amount())) <= size(
                c.amount() - (self.amount() - b.amount()),
            ),
            0x100_0000 * size(self.subtracted(b).amount() - (self.amount() - b.amount())) <= size(
                self.amount() - b.amount(),
            ),
    {
        b.lemma_opposite();
        self.law_sum_is_near(b.opposite(), c);
    }

    /// A finite product is nearest to the exact one of all numbers, `c` included, and off by
    /// at most one part in `2^24` and half of the smallest positive number. (One is `2^149`
    /// units.)
    pub proof fn law_product_is_near(self, b: Binary32, c: Binary32)
        requires
            self.multiplied(b).finite(),
        ensures
            self.finite(),
            b.finite(),
            size(self.multiplied(b).amount() * pow2(149) - self.amount() * b.amount()) <= size(
                c.amount() * pow2(149) - self.amount() * b.amount(),
            ),
            0x100_0000 * size(
                self.multiplied(b).amount() * pow2(149) - self.amount() * b.amount(),
            ) <= size(self.amount() * b.amount()) + 0x80_0000 * pow2(149),
    {
        let n = amount_of(self.mag()) * amount_of(b.mag());
        let u = pow2(149);
        lemma_pow2_pos(149);
        crate::binary32::lemma_order(0, 0);
        crate::binary32::law_nearest_is_nearest(n, u, 0);
        let r = nearest(n, u);
        let negative = self.negative() != b.negative();
        lemma_signed(negative, r);
        lemma_distance(n, u, c.mag());
        lemma_distance(n, u, 0);
        lemma_signs(
            self.negative(),
            amount_of(self.mag()) as int,
            b.negative(),
            amount_of(b.mag()) as int,
        );
        lemma_sign(negative, amount_of(r) as int, u as int);
        lemma_sign(c.negative(), amount_of(c.mag()) as int, u as int);
        assert(0 * u == 0) by (nonlinear_arith);
        assert(amount_of(c.mag()) * u >= 0) by (nonlinear_arith);
    }

    /// A finite quotient is nearest to the exact one of all numbers, `c` included, and off
    /// by at most one part in `2^24` and half of the smallest positive number. (One is
    /// `2^149` units.)
    pub proof fn law_quotient_is_near(self, b: Binary32, c: Binary32)
        requires
            self.divided(b).finite(),
            b.finite(),
        ensures
            self.finite(),
            b.amount() != 0,
            size(self.divided(b).amount() * b.amount() - self.amount() * pow2(149)) <= size(
                c.amount() * b.amount() - self.amount() * pow2(149),
            ),
            0x100_0000 * size(
                self.divided(b).amount() * b.amount() - self.amount() * pow2(149),
            ) <= size(self.amount() * pow2(149)) + 0x80_0000 * size(b.amount()),
    {
        let u = pow2(149);
        lemma_pow2_pos(149);
        crate::binary32::lemma_order(0, b.mag());
        let n = amount_of(self.mag()) * u;
        let d = amount_of(b.mag());
        crate::binary32::law_nearest_is_nearest(n, d, 0);
        let r = nearest(n, d);
        let negative = self.negative() != b.negative();
        lemma_signed(negative, r);
        lemma_distance(n, d, c.mag());
        lemma_distance(n, d, 0);
        lemma_sign(self.negative(), amount_of(self.mag()) as int, u as int);
        lemma_signs(negative, amount_of(r) as int, b.negative(), d as int);
        lemma_signs(c.negative(), amount_of(c.mag()) as int, b.negative(), d as int);
        assert(0 * d == 0) by (nonlinear_arith);
        assert(amount_of(c.mag()) * d >= 0) by (nonlinear_arith);
    }
}

proof fn lemma_sign(negative: bool, x: int, u: int)
    ensures
        (if negative {
            -x
        } else {
            x
        }) * u == if negative {
            -(x * u)
        } else {
            x * u
        },
{
    assert((-x) * u == -(x * u)) by (nonlinear_arith);
}

proof fn lemma_signs(first: bool, x: int, second: bool, y: int)
    ensures
        (if first {
            -x
        } else {
            x
        }) * (if second {
            -y
        } else {
            y
        }) == if first != second {
            -(x * y)
        } else {
            x * y
        },
{
    assert((-x) * y == -(x * y)) by (nonlinear_arith);
    assert(x * (-y) == -(x * y)) by (nonlinear_arith);
    assert((-x) * (-y) == x * y) by (nonlinear_arith);
}

/// The largest finite number, in units of the smallest positive one.
pub open spec fn largest() -> int {
    amount_of((INFINITE - 1) as nat) as int
}

/// The largest finite number is `2^24 - 1` times `2^104`, and one is `2^149` units.
pub(crate) proof fn lemma_largest()
    ensures
        largest() == 0xff_ffff * pow2(253),
        largest() >= 4,
{
    let top = (INFINITE - 1) as nat;
    let _ = crate::binary32::lemma_split(top);
    assert(top / (STEP as nat) == 254);
    assert(crate::binary32::scale(top) == 253);
    assert(top - 253 * STEP == 0xff_ffff);
    lemma_pow2_pos(253);
    crate::binary32::lemma_order(0, 3);
    crate::binary32::lemma_order(3, 4);
    crate::binary32::lemma_order(4, top);
    let _ = crate::binary32::lemma_split(4);
    vstd::arithmetic::power2::lemma2_to64();
    assert(amount_of(4) == 4 * 1);
}

/// No finite number is beyond the largest.
pub(crate) proof fn lemma_finite_size(x: Binary32)
    requires
        x.finite(),
    ensures
        size(x.amount()) <= largest(),
{
    crate::binary32::lemma_order(x.mag(), (INFINITE - 1) as nat);
}

/// What is not larger than the largest finite number is rounded to a finite one.
proof fn lemma_rounds_to_finite(n: nat, d: nat)
    requires
        d > 0,
        n <= largest() * d,
    ensures
        nearest(n, d) < INFINITE,
{
    crate::binary32::law_nearest_is_nearest(n, d, 0);
    let a = amount_of((INFINITE - 1) as nat);
    let b = amount_of(INFINITE as nat);
    crate::binary32::lemma_order((INFINITE - 1) as nat, INFINITE as nat);
    assert((a + b) * d > 2 * (a * d)) by (nonlinear_arith)
        requires
            a < b,
            d > 0,
    ;
}

impl Binary32 {
    /// The sum of finite numbers is finite, where the exact sum is not beyond the largest
    /// finite number.
    pub proof fn law_sum_is_finite(self, b: Binary32)
        requires
            self.finite(),
            b.finite(),
            size(self.amount() + b.amount()) <= largest(),
        ensures
            self.added(b).finite(),
    {
        let n = size(self.amount() + b.amount()) as nat;
        assert(largest() * 1 == largest());
        lemma_rounds_to_finite(n, 1);
        lemma_signed(true, nearest(n, 1));
        lemma_signed(false, nearest(n, 1));
        lemma_signed(self.negative() && b.negative(), 0);
    }

    /// The difference of finite numbers is finite, where the exact difference is not beyond
    /// the largest finite number.
    pub proof fn law_difference_is_finite(self, b: Binary32)
        requires
            self.finite(),
            b.finite(),
            size(self.amount() - b.amount()) <= largest(),
        ensures
            self.subtracted(b).finite(),
    {
        b.lemma_opposite();
        self.law_sum_is_finite(b.opposite());
    }

    /// The product of finite numbers is finite, where the exact product is not beyond the
    /// largest finite number. (One is `2^149` units.)
    pub proof fn law_product_is_finite(self, b: Binary32)
        requires
            self.finite(),
            b.finite(),
            size(self.amount() * b.amount()) <= largest() * pow2(149),
        ensures
            self.multiplied(b).finite(),
    {
        lemma_signs(
            self.negative(),
            amount_of(self.mag()) as int,
            b.negative(),
            amount_of(b.mag()) as int,
        );
        let n = amount_of(self.mag()) * amount_of(b.mag());
        assert(n >= 0) by (nonlinear_arith)
            requires
                n == amount_of(self.mag()) * amount_of(b.mag()),
        ;
        lemma_pow2_pos(149);
        lemma_rounds_to_finite(n, pow2(149));
        lemma_signed(self.negative() != b.negative(), nearest(n, pow2(149)));
    }

    /// The quotient of finite numbers is finite, where the exact quotient is not beyond the
    /// largest finite number. (One is `2^149` units.)
    pub proof fn law_quotient_is_finite(self, b: Binary32)
        requires
            self.finite(),
            b.finite(),
            b.amount() != 0,
            size(self.amount() * pow2(149)) <= largest() * size(b.amount()),
        ensures
            self.divided(b).finite(),
    {
        let u = pow2(149);
        lemma_sign(self.negative(), amount_of(self.mag()) as int, u as int);
        let n = amount_of(self.mag()) * u;
        assert(n >= 0) by (nonlinear_arith)
            requires
                n == amount_of(self.mag()) * u,
        ;
        crate::binary32::lemma_order(0, b.mag());
        let d = amount_of(b.mag());
        lemma_rounds_to_finite(n, d);
        lemma_signed(self.negative() != b.negative(), nearest(n, d));
    }
}

/// A sum of terms of the size `whole` does not come beyond the largest finite number in
/// `steps` roundings.
pub open spec fn fits(whole: int, steps: nat) -> bool {
    pow(0x100_0001, steps) * whole <= pow(0x100_0000, steps) * largest()
}

/// One more term does not lead beyond the largest finite number.
pub(crate) proof fn lemma_fits_step(
    found: int,
    exact: int,
    whole: int,
    steps: nat,
    term: int,
    all: int,
    limit: nat,
)
    requires
        near(found, exact, whole, steps),
        size(exact) <= whole,
        whole + size(term) <= all,
        steps <= limit,
        fits(all, limit),
    ensures
        size(found + term) <= largest(),
{
    lemma_near_more(found, exact, whole, steps, whole, limit);
    lemma_powers(limit);
    let p = pow(0x100_0000, limit);
    let q = pow(0x100_0001, limit);
    let e = size(found - exact);
    let l = largest();
    assert(size(found + term) <= e + all);
    assert(e + all <= l) by (nonlinear_arith)
        requires
            p * e <= (q - p) * whole,
            whole <= all,
            q * all <= p * l,
            0 < p <= q,
    {
        assert((q - p) * whole <= (q - p) * all);
        assert(p * (e + all) <= (q - p) * all + p * all);
        assert((q - p) * all + p * all == q * all);
        assert(p * (e + all) <= p * l);
    }
}

/// A power of the larger number is larger.
proof fn lemma_powers(steps: nat)
    ensures
        0 < pow(0x100_0000, steps) <= pow(0x100_0001, steps),
        pow(0x100_0000, steps + 1) == 0x100_0000 * pow(0x100_0000, steps),
        pow(0x100_0001, steps + 1) == 0x100_0001 * pow(0x100_0001, steps),
    decreases steps,
{
    vstd::arithmetic::power::lemma_pow0(0x100_0000);
    vstd::arithmetic::power::lemma_pow0(0x100_0001);
    reveal(pow);
    if steps > 0 {
        lemma_powers((steps - 1) as nat);
    }
}

/// What needs no rounding is near.
pub(crate) proof fn lemma_near_start(x: int, whole: int)
    requires
        whole >= 0,
    ensures
        near(x, x, whole, 0),
{
    lemma_powers(0);
    vstd::arithmetic::power::lemma_pow0(0x100_0000);
    vstd::arithmetic::power::lemma_pow0(0x100_0001);
    assert((1 - 1) * whole == 0) by (nonlinear_arith);
}

/// More steps lead no less far, and so do larger values.
pub(crate) proof fn lemma_near_more(
    found: int,
    exact: int,
    whole: int,
    steps: nat,
    larger: int,
    more: nat,
)
    requires
        near(found, exact, whole, steps),
        0 <= whole <= larger,
        steps <= more,
    ensures
        near(found, exact, larger, more),
    decreases more - steps,
{
    lemma_powers(steps);
    let p = pow(0x100_0000, steps);
    let q = pow(0x100_0001, steps);
    assert((q - p) * whole <= (q - p) * larger) by (nonlinear_arith)
        requires
            p <= q,
            whole <= larger,
    ;
    if steps < more {
        let e = size(found - exact);
        assert((0x100_0000 * p) * e <= (0x100_0001 * q - 0x100_0000 * p) * larger) by (nonlinear_arith)
            requires
                p * e <= (q - p) * larger,
                0 < p <= q,
                larger >= 0,
        {
            assert((0x100_0000 * p) * e == 0x100_0000 * (p * e));
            assert(0x100_0000 * ((q - p) * larger) == (0x100_0000 * q - 0x100_0000 * p) * larger);
            assert((0x100_0000 * q - 0x100_0000 * p) * larger <= (0x100_0001 * q - 0x100_0000 * p)
                * larger);
        }
        lemma_near_more(found, exact, larger, steps + 1, larger, more);
    }
}

/// One more term in a sum.
pub(crate) proof fn lemma_near_step(
    found: int,
    exact: int,
    whole: int,
    steps: nat,
    term: int,
    sum: int,
)
    requires
        near(found, exact, whole, steps),
        size(exact) <= whole,
        0x100_0000 * size(sum - (found + term)) <= size(found + term),
    ensures
        near(sum, exact + term, whole + size(term), steps + 1),
        size(exact + term) <= whole + size(term),
{
    lemma_powers(steps);
    let p = pow(0x100_0000, steps);
    let q = pow(0x100_0001, steps);
    let larger = whole + size(term);
    let e = size(found - exact);
    let f = size(sum - (exact + term));
    assert((q - p) * whole <= (q - p) * larger) by (nonlinear_arith)
        requires
            p <= q,
            whole <= larger,
    ;
    assert(0x100_0000 * f <= 0x100_0001 * e + larger);
    assert((0x100_0000 * p) * f <= (0x100_0001 * q - 0x100_0000 * p) * larger) by (nonlinear_arith)
        requires
            p * e <= (q - p) * larger,
            0x100_0000 * f <= 0x100_0001 * e + larger,
            0 < p <= q,
    {
        assert((0x100_0000 * p) * f == p * (0x100_0000 * f));
        assert(p * (0x100_0000 * f) <= p * (0x100_0001 * e + larger));
        assert(p * (0x100_0001 * e + larger) == 0x100_0001 * (p * e) + p * larger);
        assert(0x100_0001 * ((q - p) * larger) + p * larger == (0x100_0001 * q - 0x100_0000 * p)
            * larger);
    }
}

/// How large what is near can be.
pub(crate) proof fn lemma_found_size(found: int, exact: int, whole: int, steps: nat)
    requires
        near(found, exact, whole, steps),
        size(exact) <= whole,
    ensures
        pow(0x100_0000, steps) * size(found) <= pow(0x100_0001, steps) * whole,
        pow(0x100_0000, steps) > 0,
{
    lemma_powers(steps);
    let p = pow(0x100_0000, steps);
    let q = pow(0x100_0001, steps);
    let e = size(found - exact);
    let f = size(found);
    assert(p * f <= q * whole) by (nonlinear_arith)
        requires
            p * e <= (q - p) * whole,
            f <= e + whole,
            p > 0,
    {
        assert(p * f <= p * (e + whole));
        assert(p * (e + whole) == p * e + p * whole);
        assert((q - p) * whole + p * whole == q * whole);
    }
}

/// What is near something that fits is not beyond the largest finite number.
pub(crate) proof fn lemma_found_largest(found: int, exact: int, whole: int, steps: nat)
    requires
        near(found, exact, whole, steps),
        size(exact) <= whole,
        fits(whole, steps),
    ensures
        size(found) <= largest(),
{
    lemma_fits_step(found, exact, whole, steps, 0, whole, steps);
}

impl Binary32 {
    /// One more number in a sum.
    pub(crate) proof fn lemma_near_sum(self, exact: int, whole: int, steps: nat, b: Binary32)
        requires
            self.added(b).finite(),
            near(self.amount(), exact, whole, steps),
            size(exact) <= whole,
        ensures
            near(
                self.added(b).amount(),
                exact + b.amount(),
                whole + size(b.amount()),
                steps + 1,
            ),
            size(exact + b.amount()) <= whole + size(b.amount()),
            self.finite(),
            b.finite(),
    {
        self.law_sum_is_near(b, self);
        lemma_near_step(
            self.amount(),
            exact,
            whole,
            steps,
            b.amount(),
            self.added(b).amount(),
        );
    }

    /// Doubling needs no rounding, unless it leads beyond the finite numbers.
    pub proof fn law_doubling_is_exact(self)
        requires
            self.added(self).finite(),
        ensures
            self.sum_is_exact(self),
    {
        let mag = self.mag();
        let twice: nat = if mag < STEP {
            2 * mag
        } else {
            mag + STEP as nat
        };
        let (e, q) = crate::binary32::lemma_split(mag);
        let (e2, q2) = crate::binary32::lemma_split(twice);
        vstd::arithmetic::power2::lemma2_to64();
        assert(amount_of(twice) == 2 * amount_of(mag)) by {
            if mag < STEP {
                assert(e == 0 && q == mag && e2 == 0 && q2 == twice);
                assert(q * 1 == q && q2 * 1 == q2);
            } else if mag < 2 * STEP {
                assert(twice / (STEP as nat) == 2);
                assert(e == 0 && q == mag && e2 == 1 && q2 == mag);
                assert(q * 1 == q && q2 * 2 == 2 * q2);
            } else {
                assert(twice / (STEP as nat) == mag / (STEP as nat) + 1);
                assert(e2 == e + 1);
                vstd::arithmetic::power2::lemma_pow2_unfold(e + 1);
                assert(e2 * (STEP as nat) == e * (STEP as nat) + STEP as nat);
                assert(q2 == q);
                assert(q * (2 * pow2(e)) == 2 * (q * pow2(e))) by (nonlinear_arith);
            }
        }
        if twice <= INFINITE {
            let c = crate::binary32::signed(self.negative(), twice);
            lemma_signed(self.negative(), twice);
            self.law_sum_is_near(self, c);
        } else {
            let n = amount_of(twice);
            let r = nearest(n, 1);
            crate::binary32::law_nearest_is_nearest(n, 1, r);
            crate::binary32::lemma_order(0, mag);
            crate::binary32::lemma_order(r, twice);
            crate::binary32::lemma_order(r + 1, twice);
            lemma_signed(self.negative(), r);
            assert((amount_of(r) + amount_of(r + 1)) * 1 == amount_of(r) + amount_of(r + 1));
        }
    }
}

proof fn lemma_growth(steps: nat)
    requires
        steps <= 0x80_0000,
    ensures
        0x100_0000 * (pow(0x100_0001, steps) - pow(0x100_0000, steps)) <= 2 * steps * pow(
            0x100_0000,
            steps,
        ),
        pow(0x100_0001, steps) <= 2 * pow(0x100_0000, steps),
    decreases steps,
{
    lemma_powers(steps);
    let p = pow(0x100_0000, steps);
    let q = pow(0x100_0001, steps);
    if steps == 0 {
        vstd::arithmetic::power::lemma_pow0(0x100_0000);
        vstd::arithmetic::power::lemma_pow0(0x100_0001);
    } else {
        let k = (steps - 1) as nat;
        lemma_growth(k);
        lemma_powers(k);
        let a = pow(0x100_0000, k);
        let b = pow(0x100_0001, k);
        let x = k as int;
        assert(2 * steps * p == 0x100_0000 * (2 * x * a + 2 * a)) by (nonlinear_arith)
            requires
                p == 0x100_0000 * a,
                steps == x + 1,
        ;
        assert(q - p == 0x100_0000 * (b - a) + b);
    }
    let y = steps as int;
    assert(2 * y * p <= 0x100_0000 * p) by (nonlinear_arith)
        requires
            y <= 0x80_0000,
            p > 0,
    ;
}

/// What is near is off by no more than two parts in `2^24` for each step, as long as there
/// are no more than `2^23` of them; without steps it is not off at all.
pub proof fn law_near_is_close(found: int, exact: int, whole: int, steps: nat)
    requires
        near(found, exact, whole, steps),
        whole >= 0,
        steps <= 0x80_0000,
    ensures
        0x100_0000 * size(found - exact) <= 2 * steps * whole,
        steps == 0 ==> found == exact,
{
    lemma_growth(steps);
    lemma_powers(steps);
    let p = pow(0x100_0000, steps);
    let q = pow(0x100_0001, steps);
    let e = size(found - exact);
    let y = steps as int;
    assert(0x100_0000 * e <= 2 * y * whole) by (nonlinear_arith)
        requires
            p * e <= (q - p) * whole,
            0x100_0000 * (q - p) <= 2 * y * p,
            p > 0,
            whole >= 0,
    {
        assert(0x100_0000 * (p * e) <= (0x100_0000 * (q - p)) * whole);
        assert((0x100_0000 * (q - p)) * whole <= (2 * y * p) * whole);
        assert(p * (0x100_0000 * e) <= p * (2 * y * whole));
    }
    if steps == 0 {
        assert(2 * y * whole == 0) by (nonlinear_arith)
            requires
                y == 0,
        ;
    }
}

impl Binary32 {
    /// What is not a number makes no number, and is neither below nor above any.
    pub proof fn law_not_a_number_spreads(self, b: Binary32)
        requires
            self.nan(),
        ensures
            self.added(b).nan(),
            b.added(self).nan(),
            self.subtracted(b).nan(),
            b.subtracted(self).nan(),
            self.multiplied(b).nan(),
            b.multiplied(self).nan(),
            self.divided(b).nan(),
            b.divided(self).nan(),
            !self.below(b),
            !b.below(self),
    {
    }

    /// A sum of finite numbers that is beyond all finite ones is infinite, with the sign of
    /// the exact sum.
    pub proof fn law_sum_overflows(self, b: Binary32)
        requires
            self.finite(),
            b.finite(),
            size(self.amount() + b.amount()) >= amount_of(INFINITE as nat),
        ensures
            self.added(b).infinite(),
            self.added(b).negative() == (self.amount() + b.amount() < 0),
    {
        let n = size(self.amount() + b.amount()) as nat;
        crate::binary32::lemma_order(0, INFINITE as nat);
        crate::binary32::law_nearest_is_nearest(n, 1, 0);
        let r = nearest(n, 1);
        if r < INFINITE {
            crate::binary32::lemma_order(r, INFINITE as nat);
            crate::binary32::lemma_order(r + 1, INFINITE as nat);
            assert((amount_of(r) + amount_of(r + 1)) * 1 == amount_of(r) + amount_of(r + 1));
        }
        lemma_signed(true, r);
        lemma_signed(false, r);
    }

    /// Adding a finite number leaves an infinite one, and so does adding an infinite one of
    /// the same sign; infinite numbers of different signs have no sum.
    pub proof fn law_infinite_sums(self, b: Binary32)
        requires
            self.infinite(),
            !b.nan(),
        ensures
            b.finite() || b.negative() == self.negative() ==> self.added(b) == self,
            b.infinite() && b.negative() != self.negative() ==> self.added(b).nan(),
    {
    }

    /// Of two numbers, the one that stands for less is below the other, and only that one.
    pub proof fn law_below_is_less(self, b: Binary32)
        requires
            !self.nan(),
            !b.nan(),
        ensures
            self.below(b) <==> self.amount() < b.amount(),
    {
    }
}

} // verus!
