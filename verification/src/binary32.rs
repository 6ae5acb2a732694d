//! IEEE 754 binary32 numbers, kept by their bit pattern.
//!
//! Edge weights and modularity are binary32 numbers. Every operation here is
//! computed on integers, and its contract says which number comes out: the one
//! nearest to the exact result, the one with the even pattern where two are
//! equally near.

use vstd::arithmetic::power2::*;
use vstd::prelude::*;

verus! {

/// The patterns below this one are finite, this one is infinity, and those above it
/// are not numbers. The sign bit is left out of the count.
pub const INFINITE: u32 = 0x7f80_0000;

/// The weight of the sign bit.
pub const SIGN: u32 = 0x8000_0000;

/// The weight of the lowest bit of the exponent field.
pub const STEP: u32 = 0x80_0000;

/// The pattern of the results that are not a number.
pub const NAN: u32 = 0x7fc0_0000;

/// A binary32 number.
#[derive(Clone, Copy, Debug)]
pub struct Binary32 {
    pub bits: u32,
}

/// The power of two that the pattern `mag` (without sign) is scaled by.
pub open spec fn scale(mag: nat) -> nat {
    if mag < 2 * STEP {
        0
    } else {
        (mag / (STEP as nat) - 1) as nat
    }
}

/// What the pattern `mag` (without sign) stands for, counted in units of 2^-149, the
/// smallest positive number. For infinity this is the power of two that follows
/// the largest finite number.
pub open spec fn amount_of(mag: nat) -> nat {
    ((mag - scale(mag) * STEP) * pow2(scale(mag))) as nat
}

/// The pattern `r` is nearest to the fraction `n / d`: `n / d` lies between the
/// midpoints to the pattern before and the pattern after, and on a midpoint only if
/// `r` is even.
pub open spec fn is_nearest(n: nat, d: nat, r: nat) -> bool {
    &&& r <= INFINITE
    &&& 0 < r ==> {
        let low = (amount_of((r - 1) as nat) + amount_of(r)) * d;
        low < 2 * n || (low == 2 * n && r % 2 == 0)
    }
    &&& r < INFINITE ==> {
        let high = (amount_of(r) + amount_of(r + 1)) * d;
        2 * n < high || (2 * n == high && r % 2 == 0)
    }
}

/// The pattern nearest to the fraction `n / d`.
pub open spec fn nearest(n: nat, d: nat) -> nat {
    choose|r: nat| is_nearest(n, d, r)
}

/// The number with the pattern `mag` and the given sign.
pub open spec fn signed(negative: bool, mag: nat) -> Binary32 {
    Binary32 {
        bits: if negative {
            (mag + SIGN) as u32
        } else {
            mag as u32
        },
    }
}

impl Binary32 {
    pub open spec fn negative(self) -> bool {
        self.bits >= SIGN
    }

    /// The pattern without the sign bit.
    pub open spec fn mag(self) -> nat {
        if self.negative() {
            (self.bits - SIGN) as nat
        } else {
            self.bits as nat
        }
    }

    pub open spec fn nan(self) -> bool {
        self.mag() > INFINITE
    }

    pub open spec fn infinite(self) -> bool {
        self.mag() == INFINITE
    }

    pub open spec fn zero(self) -> bool {
        self.mag() == 0
    }

    /// The value, in units of 2^-149.
    pub open spec fn amount(self) -> int {
        if self.negative() {
            -(amount_of(self.mag()) as int)
        } else {
            amount_of(self.mag()) as int
        }
    }
}

/// The number that is not a number.
pub open spec fn not_a_number() -> Binary32 {
    Binary32 { bits: NAN }
}

impl Binary32 {
    /// `self + b`.
    pub open spec fn added(self, b: Binary32) -> Binary32 {
        if self.nan() || b.nan() {
            not_a_number()
        } else if self.infinite() {
            if b.infinite() && self.negative() != b.negative() {
                not_a_number()
            } else {
                self
            }
        } else if b.infinite() {
            b
        } else {
            let exact = self.amount() + b.amount();
            if exact == 0 {
                signed(self.negative() && b.negative(), 0)
            } else if exact > 0 {
                signed(false, nearest(exact as nat, 1))
            } else {
                signed(true, nearest((-exact) as nat, 1))
            }
        }
    }

    /// `-self`.
    pub open spec fn opposite(self) -> Binary32 {
        signed(!self.negative(), self.mag())
    }

    /// `self - b`.
    pub open spec fn subtracted(self, b: Binary32) -> Binary32 {
        self.added(b.opposite())
    }

    /// `self * b`.
    pub open spec fn multiplied(self, b: Binary32) -> Binary32 {
        let negative = self.negative() != b.negative();
        if self.nan() || b.nan() {
            not_a_number()
        } else if self.infinite() || b.infinite() {
            if self.zero() || b.zero() {
                not_a_number()
            } else {
                signed(negative, INFINITE as nat)
            }
        } else {
            signed(negative, nearest(amount_of(self.mag()) * amount_of(b.mag()), pow2(149)))
        }
    }

    /// `self / b`.
    pub open spec fn divided(self, b: Binary32) -> Binary32 {
        let negative = self.negative() != b.negative();
        if self.nan() || b.nan() {
            not_a_number()
        } else if self.infinite() {
            if b.infinite() {
                not_a_number()
            } else {
                signed(negative, INFINITE as nat)
            }
        } else if b.infinite() {
            signed(negative, 0)
        } else if b.zero() {
            if self.zero() {
                not_a_number()
            } else {
                signed(negative, INFINITE as nat)
            }
        } else {
            signed(negative, nearest(amount_of(self.mag()) * pow2(149), amount_of(b.mag())))
        }
    }

    /// `self < b`.
    pub open spec fn below(self, b: Binary32) -> bool {
        !self.nan() && !b.nan() && self.amount() < b.amount()
    }
}

impl Binary32 {
    /// The number is neither infinite nor not a number.
    pub open spec fn finite(self) -> bool {
        self.mag() < INFINITE
    }

    /// `self + b` needs no rounding.
    pub open spec fn sum_is_exact(self, b: Binary32) -> bool {
        self.added(b).finite() && self.added(b).amount() == self.amount() + b.amount()
    }

    /// `self - b` needs no rounding.
    pub open spec fn difference_is_exact(self, b: Binary32) -> bool {
        self.subtracted(b).finite() && self.subtracted(b).amount() == self.amount() - b.amount()
    }

    /// `self * b` needs no rounding.
    pub open spec fn product_is_exact(self, b: Binary32) -> bool {
        self.multiplied(b).finite() && self.multiplied(b).amount() * pow2(149) == self.amount()
            * b.amount()
    }

    /// `self / b` needs no rounding.
    pub open spec fn quotient_is_exact(self, b: Binary32) -> bool {
        &&& b.amount() != 0
        &&& self.divided(b).finite()
        &&& self.divided(b).amount() * b.amount() == self.amount() * pow2(149)
    }
}

/// A pattern is `e` exponent steps and a significand `q`, and stands for `q * 2^e`.
proof fn lemma_amount(e: nat, q: nat)
    requires
        q <= 2 * STEP,
        e > 0 ==> q >= STEP,
    ensures
        amount_of(e * (STEP as nat) + q) == q * pow2(e),
{
    let mag = e * (STEP as nat) + q;
    lemma_pow2_pos(e);
    lemma2_to64();
    if e == 0 {
        assert(scale(mag) == if q == 2 * STEP { 1nat } else { 0nat });
    } else if q == 2 * STEP {
        assert(mag / (STEP as nat) == e + 2);
        assert(scale(mag) == e + 1);
        lemma_pow2_unfold(e + 1);
        assert(amount_of(mag) == STEP * pow2(e + 1));
        assert(STEP * (2 * pow2(e)) == (2 * STEP) * pow2(e)) by (nonlinear_arith);
    } else {
        assert(mag / (STEP as nat) == e + 1);
        assert(scale(mag) == e);
    }
}

/// Every pattern splits into exponent steps and a significand.
pub(crate) proof fn lemma_split(mag: nat) -> (parts: (nat, nat))
    ensures
        mag == parts.0 * (STEP as nat) + parts.1,
        parts.0 == scale(mag),
        parts.1 < 2 * STEP,
        parts.0 > 0 ==> parts.1 >= STEP,
        amount_of(mag) == parts.1 * pow2(parts.0),
        amount_of(mag + 1) == (parts.1 + 1) * pow2(parts.0),
{
    let e = scale(mag);
    let q = (mag - e * STEP) as nat;
    lemma_amount(e, q);
    lemma_amount(e, q + 1);
    (e, q)
}

/// A larger pattern stands for a larger amount.
pub(crate) proof fn lemma_increasing(a: nat, b: nat)
    requires
        a < b,
    ensures
        amount_of(a) < amount_of(b),
    decreases b - a,
{
    let (e, q) = lemma_split((b - 1) as nat);
    lemma_pow2_pos(e);
    assert(q * pow2(e) < (q + 1) * pow2(e)) by (nonlinear_arith)
        requires
            pow2(e) > 0,
    ;
    if a < b - 1 {
        lemma_increasing(a, (b - 1) as nat);
    }
}

/// Amounts compare as their patterns do, and only the pattern 0 stands for nothing.
pub(crate) proof fn lemma_order(a: nat, b: nat)
    ensures
        a < b <==> amount_of(a) < amount_of(b),
        a == b <==> amount_of(a) == amount_of(b),
        a == 0 <==> amount_of(a) == 0,
        b == 0 <==> amount_of(b) == 0,
{
    lemma_amount(0, 0);
    assert(amount_of(0) == 0);
    if 0 < a {
        lemma_increasing(0, a);
    }
    if 0 < b {
        lemma_increasing(0, b);
    }
    if a < b {
        lemma_increasing(a, b);
    } else if b < a {
        lemma_increasing(b, a);
    }
}

/// At most one pattern is nearest to a fraction.
proof fn lemma_nearest_unique(n: nat, d: nat, r: nat, s: nat)
    requires
        d > 0,
        is_nearest(n, d, r),
        is_nearest(n, d, s),
    ensures
        r == s,
{
    if r < s {
        lemma_nearest_order(n, d, r, s);
    } else if s < r {
        lemma_nearest_order(n, d, s, r);
    }
}

proof fn lemma_nearest_order(n: nat, d: nat, r: nat, s: nat)
    requires
        d > 0,
        is_nearest(n, d, r),
        is_nearest(n, d, s),
        r <= s,
    ensures
        r == s,
{
    let high = amount_of(r) + amount_of(r + 1);
    let low = amount_of((s - 1) as nat) + amount_of(s);
    if r + 1 < s {
        lemma_increasing(r, (s - 1) as nat);
        lemma_increasing(r + 1, s);
        assert(high * d < low * d) by (nonlinear_arith)
            requires
                high < low,
                d > 0,
        ;
    }
}

/// A pattern that is nearest to a fraction is the nearest one.
proof fn lemma_nearest(n: nat, d: nat, r: nat)
    requires
        d > 0,
        is_nearest(n, d, r),
    ensures
        nearest(n, d) == r,
{
    lemma_nearest_unique(n, d, nearest(n, d), r);
}

/// The exact fraction `n / d`, in units of 2^-(149 + 512), lies at `m` steps of
/// 2^e, or between `m` and `m + 1` steps where `inexact`.
spec fn located(n: nat, d: nat, m: nat, e: nat, inexact: bool) -> bool {
    let low = m * pow2(e) * d;
    let high = (m + 1) * pow2(e) * d;
    &&& low <= n * pow2(512) < high
    &&& inexact == (low < n * pow2(512))
}

proof fn lemma_halve(n: nat, d: nat, m: nat, e: nat, inexact: bool)
    requires
        located(n, d, m, e, inexact),
        d > 0,
    ensures
        located(n, d, m / 2, e + 1, inexact || m % 2 == 1),
{
    lemma_pow2_unfold(e + 1);
    lemma_pow2_pos(e);
    let p = pow2(e);
    let h = m / 2;
    let x = n * pow2(512);
    assert((h * (2 * p)) * d == (2 * h) * p * d) by (nonlinear_arith);
    assert(((h + 1) * (2 * p)) * d == (2 * h + 2) * p * d) by (nonlinear_arith);
    assert((2 * h) * p * d + p * d == (2 * h + 1) * p * d) by (nonlinear_arith);
    assert((2 * h + 1) * p * d + p * d == (2 * h + 2) * p * d) by (nonlinear_arith);
    assert(p * d > 0) by (nonlinear_arith)
        requires
            p > 0,
            d > 0,
    ;
}

proof fn lemma_double(n: nat, d: nat, m: nat, e: nat)
    requires
        located(n, d, m, e + 1, false),
        d > 0,
    ensures
        located(n, d, 2 * m, e, false),
{
    lemma_pow2_unfold(e + 1);
    lemma_pow2_pos(e);
    let p = pow2(e);
    assert((m * (2 * p)) * d == (2 * m) * p * d) by (nonlinear_arith);
    assert((2 * m + 1) * p * d == (2 * m) * p * d + p * d) by (nonlinear_arith);
    assert(p * d > 0) by (nonlinear_arith)
        requires
            p > 0,
            d > 0,
    ;
}

/// The pattern of `q` significand steps at exponent `e` is the last one not above
/// the fraction, which lies `low` quarters of a step further on.
spec fn quartered(n: nat, d: nat, q: nat, low: nat, e: nat, inexact: bool) -> bool {
    &&& d > 0
    &&& low < 4
    &&& q < 2 * STEP
    &&& e > 0 ==> q >= STEP
    &&& located(n, d, 4 * q + low, e + 510, inexact)
}

/// Where the fraction lies among the quarters, in units of 2^-149.
proof fn lemma_quarters(n: nat, d: nat, q: nat, low: nat, e: nat, inexact: bool)
    requires
        quartered(n, d, q, low, e, inexact),
    ensures
        4 * (amount_of(e * (STEP as nat) + q) * d) + low * (pow2(e) * d) <= 4 * n,
        4 * n < 4 * (amount_of(e * (STEP as nat) + q) * d) + (low + 1) * (pow2(e) * d),
        inexact == (4 * (amount_of(e * (STEP as nat) + q) * d) + low * (pow2(e) * d) < 4 * n),
        amount_of(e * (STEP as nat) + q + 1) * d == amount_of(e * (STEP as nat) + q) * d + pow2(e)
            * d,
        pow2(e) * d > 0,
{
    lemma_amount(e, q);
    lemma_amount(e, q + 1);
    lemma_pow2_adds(e, 510);
    lemma_pow2_adds(2, 510);
    lemma2_to64();
    lemma_pow2_pos(e);
    lemma_pow2_pos(510);
    let p = pow2(e);
    let k = pow2(510);
    let m = 4 * q + low;
    assert(m * (p * k) * d == (4 * (q * p * d) + low * (p * d)) * k) by (nonlinear_arith)
        requires
            m == 4 * q + low,
    ;
    assert((m + 1) * (p * k) * d == (4 * (q * p * d) + (low + 1) * (p * d)) * k) by (nonlinear_arith)
        requires
            m == 4 * q + low,
    ;
    assert(n * (4 * k) == (4 * n) * k) by (nonlinear_arith);
    let a = 4 * (q * p * d) + low * (p * d);
    let b = 4 * (q * p * d) + (low + 1) * (p * d);
    let c = 4 * n;
    assert(a * k <= c * k ==> a <= c) by (nonlinear_arith)
        requires
            k > 0,
    ;
    assert(c * k < b * k ==> c < b) by (nonlinear_arith)
        requires
            k > 0,
    ;
    assert(a * k < c * k <==> a < c) by (nonlinear_arith)
        requires
            k > 0,
    ;
    assert((q + 1) * p * d == q * p * d + p * d) by (nonlinear_arith);
    assert(p * d > 0) by (nonlinear_arith)
        requires
            p > 0,
            d > 0,
    ;
}

/// Rounding down.
proof fn lemma_round_down(n: nat, d: nat, q: nat, low: nat, e: nat, inexact: bool)
    requires
        quartered(n, d, q, low, e, inexact),
        e * STEP + q < INFINITE,
        low < 2 || (low == 2 && !inexact && q % 2 == 0),
    ensures
        is_nearest(n, d, e * (STEP as nat) + q),
{
    lemma_quarters(n, d, q, low, e, inexact);
    let r = e * (STEP as nat) + q;
    let u = pow2(e) * d;
    let a = amount_of(r);
    let b = amount_of(r + 1);
    assert((a + b) * d == a * d + b * d) by (nonlinear_arith);
    assert(low * u <= 2 * u && (low < 2 ==> (low + 1) * u <= 2 * u)) by (nonlinear_arith)
        requires
            low <= 2,
            u > 0,
    ;
    assert(low * u >= 0) by (nonlinear_arith)
        requires
            u > 0,
    ;
    assert(r % 2 == q % 2);
    if 0 < r {
        let z = amount_of((r - 1) as nat);
        lemma_increasing((r - 1) as nat, r);
        assert((z + a) * d < 2 * (a * d)) by (nonlinear_arith)
            requires
                z < a,
                d > 0,
        ;
    }
}

/// Rounding up.
proof fn lemma_round_up(n: nat, d: nat, q: nat, low: nat, e: nat, inexact: bool)
    requires
        quartered(n, d, q, low, e, inexact),
        e * STEP + q < INFINITE,
        low == 3 || (low == 2 && (inexact || q % 2 == 1)),
    ensures
        is_nearest(n, d, e * (STEP as nat) + q + 1),
{
    lemma_quarters(n, d, q, low, e, inexact);
    let r = e * (STEP as nat) + q + 1;
    let u = pow2(e) * d;
    let z = amount_of((r - 1) as nat);
    let a = amount_of(r);
    assert((r - 1) as nat == e * (STEP as nat) + q);
    assert((z + a) * d == z * d + a * d) by (nonlinear_arith);
    assert(low == 2 ==> low * u == 2 * u) by (nonlinear_arith);
    assert(low == 3 ==> low * u > 2 * u) by (nonlinear_arith)
        requires
            u > 0,
    ;
    assert((low + 1) * u <= 4 * u) by (nonlinear_arith)
        requires
            low <= 3,
            u > 0,
    ;
    assert(r % 2 == (q + 1) % 2);
    if r < INFINITE {
        let b = amount_of(r + 1);
        lemma_increasing(r, r + 1);
        assert(2 * n < (a + b) * d) by (nonlinear_arith)
            requires
                4 * n < 4 * (z * d) + 4 * u,
                a * d == z * d + u,
                b > a,
                d > 0,
        ;
    }
}

/// Rounding what reaches past the largest finite number.
proof fn lemma_round_over(n: nat, d: nat, q: nat, low: nat, e: nat, inexact: bool)
    requires
        quartered(n, d, q, low, e, inexact),
        e * STEP + q >= INFINITE,
    ensures
        is_nearest(n, d, INFINITE as nat),
{
    lemma_quarters(n, d, q, low, e, inexact);
    let r = e * (STEP as nat) + q;
    let u = pow2(e) * d;
    let inf = INFINITE as nat;
    let z = amount_of((inf - 1) as nat);
    let i = amount_of(inf);
    let a = amount_of(r);
    assert(low * u >= 0) by (nonlinear_arith)
        requires
            u > 0,
    ;
    lemma_increasing((inf - 1) as nat, inf);
    if inf < r {
        lemma_increasing(inf, r);
    }
    assert((z + i) * d < 2 * (a * d)) by (nonlinear_arith)
        requires
            z < i,
            i <= a,
            d > 0,
    ;
}

proof fn lemma_pow2_of_width()
    ensures
        u128::MAX < pow2(128),
{
    lemma2_to64();
    lemma2_to64_rest();
    lemma_pow2_adds(64, 64);
}

/// The pattern nearest to `n / d`, which lies at `m` steps of 2^`e` or, where
/// `inexact`, between two steps.
fn round(m: u128, e: u32, inexact: bool, Ghost(n): Ghost<nat>, Ghost(d): Ghost<nat>) -> (r: u32)
    requires
        d > 0,
        e <= 2000,
        located(n, d, m as nat, e as nat, inexact),
        inexact ==> m >= 0x200_0000,
    ensures
        r as nat == nearest(n, d),
        r <= INFINITE,
{
    let mut m: u128 = m;
    let mut e: u32 = e;
    let mut inexact: bool = inexact;
    let ghost mut width: nat = 128;
    proof {
        lemma_pow2_of_width();
    }
    while m >= 0x400_0000 || e < 510
        invariant
            d > 0,
            m < pow2(width),
            width <= 128,
            e + width <= 3000,
            located(n, d, m as nat, e as nat, inexact),
            inexact ==> m >= 0x200_0000 || e <= 510,
        decreases m + (if e < 510 { 510 - e } else { 0 }),
    {
        proof {
            lemma_halve(n, d, m as nat, e as nat, inexact);
            if e >= 510 {
                lemma2_to64();
                lemma_pow2_unfold(width);
                width = (width - 1) as nat;
            }
        }
        inexact = inexact || m % 2 == 1;
        m = m / 2;
        e = e + 1;
    }
    while e > 510 && m < 0x200_0000
        invariant
            d > 0,
            510 <= e,
            m < 0x400_0000,
            located(n, d, m as nat, e as nat, inexact),
            inexact ==> m >= 0x200_0000 || e <= 510,
        decreases e,
    {
        proof {
            lemma_double(n, d, m as nat, (e - 1) as nat);
        }
        m = m * 2;
        e = e - 1;
    }
    let q: u32 = (m / 4) as u32;
    let low: u32 = (m % 4) as u32;
    let e: u32 = e - 510;
    proof {
        assert(quartered(n, d, q as nat, low as nat, e as nat, inexact));
    }
    if e >= 255 {
        proof {
            lemma_round_over(n, d, q as nat, low as nat, e as nat, inexact);
            lemma_nearest(n, d, INFINITE as nat);
        }
        return INFINITE;
    }
    let mag: u32 = e * STEP + q;
    if mag >= INFINITE {
        proof {
            lemma_round_over(n, d, q as nat, low as nat, e as nat, inexact);
            lemma_nearest(n, d, INFINITE as nat);
        }
        INFINITE
    } else if low == 3 || (low == 2 && (inexact || q % 2 == 1)) {
        proof {
            lemma_round_up(n, d, q as nat, low as nat, e as nat, inexact);
            lemma_nearest(n, d, mag as nat + 1);
        }
        mag + 1
    } else {
        proof {
            lemma_round_down(n, d, q as nat, low as nat, e as nat, inexact);
            lemma_nearest(n, d, mag as nat);
        }
        mag
    }
}

/// An exact result is located by the steps that it is made of.
proof fn lemma_located_exact(n: nat, d: nat, m: nat, e: nat)
    requires
        d > 0,
        m * pow2(e) * d == n * pow2(512),
    ensures
        located(n, d, m, e, false),
{
    lemma_pow2_pos(e);
    assert((m + 1) * pow2(e) * d > m * pow2(e) * d) by (nonlinear_arith)
        requires
            pow2(e) > 0,
            d > 0,
    ;
}

/// A result less than one step of 2^`k` above `m` steps.
proof fn lemma_located_above(n: nat, m: nat, k: nat, rest: nat)
    requires
        n == m * pow2(k) + rest,
        0 < rest < pow2(k),
    ensures
        located(n, 1, m, k + 512, true),
{
    lemma_pow2_adds(k, 512);
    lemma_pow2_pos(512);
    let p = pow2(k);
    let s = pow2(512);
    assert(m * (p * s) * 1 < n * s < (m + 1) * (p * s) * 1) by (nonlinear_arith)
        requires
            n == m * p + rest,
            0 < rest < p,
            s > 0,
    ;
}

/// The distance between two amounts as steps of the smaller exponent.
proof fn lemma_near(ma: nat, ea: nat, mb: nat, eb: nat)
    requires
        eb <= ea,
    ensures
        ma * pow2(ea) + mb * pow2(eb) == (ma * pow2((ea - eb) as nat) + mb) * pow2(eb),
        ma * pow2(ea) - mb * pow2(eb) == (ma * pow2((ea - eb) as nat) - mb) * pow2(eb),
{
    lemma_pow2_adds((ea - eb) as nat, eb);
    let s = pow2((ea - eb) as nat);
    let p = pow2(eb);
    assert(ma * (s * p) + mb * p == (ma * s + mb) * p) by (nonlinear_arith);
    assert(ma * (s * p) - mb * p == (ma * s - mb) * p) by (nonlinear_arith);
}

/// A far smaller amount is less than one step of 2^(`ea` - 8).
proof fn lemma_far(ma: nat, ea: nat, mb: nat, eb: nat)
    requires
        eb + 32 < ea,
        mb < 2 * STEP,
    ensures
        ma * pow2(ea) == (256 * ma) * pow2((ea - 8) as nat),
        mb * pow2(eb) < pow2((ea - 8) as nat),
{
    lemma2_to64();
    lemma_pow2_adds(8, (ea - 8) as nat);
    let p = pow2((ea - 8) as nat);
    assert(ma * (256 * p) == (256 * ma) * p) by (nonlinear_arith);
    lemma_pow2_adds(24, eb);
    lemma_pow2_strictly_increases(24 + eb, (ea - 8) as nat);
    lemma_pow2_pos(eb);
    assert(mb * pow2(eb) < 0x100_0000 * pow2(eb)) by (nonlinear_arith)
        requires
            mb < 0x100_0000,
            pow2(eb) > 0,
    ;
}

/// The significand and the exponent of a finite pattern.
fn parts(mag: u32) -> (r: (u32, u32))
    requires
        mag < INFINITE,
    ensures
        r.0 < 2 * STEP,
        r.1 <= 253,
        r.1 > 0 ==> r.0 >= STEP,
        r.1 as nat == scale(mag as nat),
        amount_of(mag as nat) == r.0 as nat * pow2(r.1 as nat),
{
    proof {
        let _ = lemma_split(mag as nat);
    }
    if mag < 2 * STEP {
        (mag, 0)
    } else {
        let e: u32 = mag / STEP - 1;
        (mag - e * STEP, e)
    }
}

/// The pattern nearest to the sum of two amounts.
fn add_amounts(a: u32, b: u32) -> (r: u32)
    requires
        b <= a < INFINITE,
    ensures
        r as nat == nearest(amount_of(a as nat) + amount_of(b as nat), 1),
        r <= INFINITE,
{
    let (ma, ea) = parts(a);
    let (mb, eb) = parts(b);
    let ghost n = amount_of(a as nat) + amount_of(b as nat);
    assert(eb <= ea);
    if ea - eb <= 32 {
        let shift: u64 = (ea - eb) as u64;
        proof {
            lemma_near(ma as nat, ea as nat, mb as nat, eb as nat);
            lemma_shift(ma, shift);
        }
        let m: u64 = ((ma as u64) << shift) + mb as u64;
        proof {
            lemma_pow2_adds(eb as nat, 512);
            assert(m as nat * (pow2(eb as nat) * pow2(512)) * 1 == (m as nat * pow2(eb as nat))
                * pow2(512)) by (nonlinear_arith);
            lemma_located_exact(n, 1, m as nat, (eb + 512) as nat);
        }
        round(m as u128, eb + 512, false, Ghost(n), Ghost(1))
    } else {
        let m: u64 = 256 * (ma as u64);
        proof {
            lemma_far(ma as nat, ea as nat, mb as nat, eb as nat);
            let k = (ea - 8) as nat;
            if mb == 0 {
                assert(mb as nat * pow2(eb as nat) == 0) by (nonlinear_arith)
                    requires
                        mb == 0,
                ;
                lemma_pow2_adds(k, 512);
                assert(m as nat * (pow2(k) * pow2(512)) * 1 == (m as nat * pow2(k)) * pow2(512))
                    by (nonlinear_arith);
                lemma_located_exact(n, 1, m as nat, k + 512);
            } else {
                lemma_pow2_pos(eb as nat);
                assert(mb as nat * pow2(eb as nat) > 0) by (nonlinear_arith)
                    requires
                        mb > 0,
                        pow2(eb as nat) > 0,
                ;
                lemma_located_above(n, m as nat, k, mb as nat * pow2(eb as nat));
            }
        }
        round(m as u128, ea + 504, mb > 0, Ghost(n), Ghost(1))
    }
}

/// The pattern nearest to the difference of two amounts.
fn subtract_amounts(a: u32, b: u32) -> (r: u32)
    requires
        b < a < INFINITE,
    ensures
        r as nat == nearest((amount_of(a as nat) - amount_of(b as nat)) as nat, 1),
        r <= INFINITE,
{
    let (ma, ea) = parts(a);
    let (mb, eb) = parts(b);
    proof {
        lemma_increasing(b as nat, a as nat);
    }
    let ghost n = (amount_of(a as nat) - amount_of(b as nat)) as nat;
    assert(eb <= ea);
    if ea - eb <= 32 {
        let shift: u64 = (ea - eb) as u64;
        proof {
            lemma_near(ma as nat, ea as nat, mb as nat, eb as nat);
            lemma_shift(ma, shift);
            lemma_pow2_pos(eb as nat);
            assert(ma as nat * pow2(shift as nat) > mb) by (nonlinear_arith)
                requires
                    (ma as nat * pow2(shift as nat) - mb) * pow2(eb as nat) > 0,
                    pow2(eb as nat) > 0,
            ;
        }
        let m: u64 = ((ma as u64) << shift) - mb as u64;
        proof {
            lemma_pow2_adds(eb as nat, 512);
            assert(m as nat * (pow2(eb as nat) * pow2(512)) * 1 == (m as nat * pow2(eb as nat))
                * pow2(512)) by (nonlinear_arith);
            lemma_located_exact(n, 1, m as nat, (eb + 512) as nat);
        }
        round(m as u128, eb + 512, false, Ghost(n), Ghost(1))
    } else {
        let m: u64 = if mb > 0 {
            256 * (ma as u64) - 1
        } else {
            256 * (ma as u64)
        };
        proof {
            lemma_far(ma as nat, ea as nat, mb as nat, eb as nat);
            let k = (ea - 8) as nat;
            if mb == 0 {
                assert(mb as nat * pow2(eb as nat) == 0) by (nonlinear_arith)
                    requires
                        mb == 0,
                ;
                lemma_pow2_adds(k, 512);
                assert(m as nat * (pow2(k) * pow2(512)) * 1 == (m as nat * pow2(k)) * pow2(512))
                    by (nonlinear_arith);
                lemma_located_exact(n, 1, m as nat, k + 512);
            } else {
                lemma_pow2_pos(eb as nat);
                let small = mb as nat * pow2(eb as nat);
                assert(small > 0) by (nonlinear_arith)
                    requires
                        small == mb as nat * pow2(eb as nat),
                        mb > 0,
                        pow2(eb as nat) > 0,
                ;
                assert((m + 1) as nat * pow2(k) == m as nat * pow2(k) + pow2(k)) by (nonlinear_arith);
                lemma_located_above(n, m as nat, k, (pow2(k) - small) as nat);
            }
        }
        round(m as u128, ea + 504, mb > 0, Ghost(n), Ghost(1))
    }
}

/// A shift by at most 32 bits multiplies a significand.
proof fn lemma_shift(m: u32, shift: u64)
    requires
        m < 2 * STEP,
        shift <= 32,
    ensures
        (m as u64) << shift == m as nat * pow2(shift as nat),
        m as nat * pow2(shift as nat) <= 0x100_0000_0000_0000,
{
    lemma2_to64();
    lemma2_to64_rest();
    if shift < 32 {
        lemma_pow2_strictly_increases(shift as nat, 32);
    }
    let p = pow2(shift as nat);
    assert(m as nat * p <= 0x100_0000_0000_0000) by (nonlinear_arith)
        requires
            m < 0x100_0000,
            p <= 0x1_0000_0000,
    ;
    vstd::bits::lemma_u64_shl_is_mul(m as u64, shift);
}

/// The pattern nearest to the product of two amounts, in units of 2^-149.
fn multiply_amounts(a: u32, b: u32) -> (r: u32)
    requires
        a < INFINITE,
        b < INFINITE,
    ensures
        r as nat == nearest(amount_of(a as nat) * amount_of(b as nat), pow2(149)),
        r <= INFINITE,
{
    let (ma, ea) = parts(a);
    let (mb, eb) = parts(b);
    let ghost n = amount_of(a as nat) * amount_of(b as nat);
    proof {
        assert(ma as nat * mb as nat <= 0x100_0000 * 0x100_0000) by (nonlinear_arith)
            requires
                ma < 0x100_0000,
                mb < 0x100_0000,
        ;
    }
    let m: u64 = (ma as u64) * (mb as u64);
    proof {
        let e = (ea + eb + 363) as nat;
        lemma_pow2_pos(149);
        lemma_pow2_adds(ea as nat, eb as nat);
        lemma_pow2_adds((ea + eb) as nat, 512);
        lemma_pow2_adds(e, 149);
        let pa = pow2(ea as nat);
        let pb = pow2(eb as nat);
        let s = pow2(512);
        let pe = pow2(e);
        let t = pow2(149);
        assert(pe * t == pa * pb * s);
        assert(m as nat * pe * t == (ma as nat * pa) * (mb as nat * pb) * s) by (nonlinear_arith)
            requires
                pe * t == pa * pb * s,
                m as nat == ma as nat * mb as nat,
        ;
        lemma_located_exact(n, t, m as nat, e);
    }
    round(m as u128, ea + eb + 363, false, Ghost(n), Ghost(pow2(149)))
}

/// The pattern nearest to the quotient of two amounts.
fn divide_amounts(a: u32, b: u32) -> (r: u32)
    requires
        a < INFINITE,
        0 < b < INFINITE,
    ensures
        r as nat == nearest(amount_of(a as nat) * pow2(149), amount_of(b as nat)),
        r <= INFINITE,
{
    let (ma, ea) = parts(a);
    let (mb, eb) = parts(b);
    let ghost n = amount_of(a as nat) * pow2(149);
    let ghost d = amount_of(b as nat);
    proof {
        lemma_increasing(0, b as nat);
        lemma_pow2_pos(eb as nat);
        assert(mb > 0) by (nonlinear_arith)
            requires
                mb as nat * pow2(eb as nat) > 0,
        ;
    }
    let wide: u128 = (ma as u128) * 0x1_0000_0000_0000_0000;
    let m: u128 = wide / (mb as u128);
    let rest: u128 = wide % (mb as u128);
    proof {
        let e = (ea + 597 - eb) as nat;
        lemma_pow2_adds(e, eb as nat);
        lemma_pow2_adds(64, (ea + 597) as nat);
        lemma_pow2_adds(ea as nat, 149);
        lemma_pow2_adds((ea + 149) as nat, 512);
        lemma2_to64_rest();
        lemma_pow2_pos((ea + 597) as nat);
        let pa = pow2(ea as nat);
        let pb = pow2(eb as nat);
        let pe = pow2(e);
        let t = pow2(149);
        let s = pow2(512);
        let p = pow2((ea + 597) as nat);
        let w = 0x1_0000_0000_0000_0000nat;
        assert(pe * pb == p);
        assert(w * p == pa * t * s);
        let (fa, fb, fm, fr) = (ma as nat, mb as nat, m as nat, rest as nat);
        assert(fa * w == fm * fb + fr) by {
            vstd::arithmetic::div_mod::lemma_fundamental_div_mod(wide as int, mb as int);
            assert(fb * fm == fm * fb) by (nonlinear_arith);
        }
        assert((fa * pa * t) * s == (fm * fb + fr) * p) by (nonlinear_arith)
            requires
                w * p == pa * t * s,
                fa * w == fm * fb + fr,
        ;
        assert(fm * pe * (fb * pb) == fm * fb * p) by (nonlinear_arith)
            requires
                pe * pb == p,
        ;
        assert((fm + 1) * pe * (fb * pb) == (fm * fb + fb) * p) by (nonlinear_arith)
            requires
                pe * pb == p,
        ;
        assert((fm * fb + fr) * p < (fm * fb + fb) * p) by (nonlinear_arith)
            requires
                fr < fb,
                p > 0,
        ;
        assert(fm * fb * p <= (fm * fb + fr) * p && (fr > 0) == (fm * fb * p < (fm * fb + fr) * p))
            by (nonlinear_arith)
            requires
                p > 0,
        ;
        assert(located(n, d, m as nat, e, rest > 0));
        if rest > 0 {
            assert(ma > 0);
            assert(m >= 0x200_0000) by (nonlinear_arith)
                requires
                    fa * w == fm * fb + fr,
                    fa >= 1,
                    fb < 0x100_0000,
                    fr < fb,
                    fm == m as nat,
                    w == 0x1_0000_0000_0000_0000nat,
            ;
        }
    }
    round(m, ea + 597 - eb, rest > 0, Ghost(n), Ghost(d))
}

/// The number with the pattern `mag` and the given sign.
fn with_sign(negative: bool, mag: u32) -> (r: Binary32)
    requires
        mag < SIGN,
    ensures
        r == signed(negative, mag as nat),
{
    Binary32 {
        bits: if negative {
            mag + SIGN
        } else {
            mag
        },
    }
}

impl Binary32 {
    /// The number with the given bit pattern.
    pub fn from_bits(bits: u32) -> (r: Binary32)
        ensures
            r == (Binary32 { bits }),
    {
        Binary32 { bits }
    }

    /// The bit pattern.
    pub fn to_bits(self) -> (r: u32)
        ensures
            r == self.bits,
    {
        self.bits
    }

    fn is_negative(self) -> (r: bool)
        ensures
            r == self.negative(),
    {
        self.bits >= SIGN
    }

    fn magnitude(self) -> (r: u32)
        ensures
            r as nat == self.mag(),
            r < SIGN,
    {
        if self.bits >= SIGN {
            self.bits - SIGN
        } else {
            self.bits
        }
    }

    /// `self + b`.
    pub fn plus(self, b: Binary32) -> (r: Binary32)
        ensures
            r == self.added(b),
    {
        let ma: u32 = self.magnitude();
        let mb: u32 = b.magnitude();
        let na: bool = self.is_negative();
        let nb: bool = b.is_negative();
        if ma > INFINITE || mb > INFINITE {
            return Binary32 { bits: NAN };
        }
        if ma == INFINITE {
            return if mb == INFINITE && na != nb {
                Binary32 { bits: NAN }
            } else {
                self
            };
        }
        if mb == INFINITE {
            return b;
        }
        proof {
            lemma_order(ma as nat, mb as nat);
        }
        if na == nb {
            if ma == 0 && mb == 0 {
                with_sign(na, 0)
            } else if ma >= mb {
                with_sign(na, add_amounts(ma, mb))
            } else {
                with_sign(na, add_amounts(mb, ma))
            }
        } else if ma == mb {
            with_sign(false, 0)
        } else if ma > mb {
            with_sign(na, subtract_amounts(ma, mb))
        } else {
            with_sign(nb, subtract_amounts(mb, ma))
        }
    }

    /// `-self`.
    pub fn negated(self) -> (r: Binary32)
        ensures
            r == self.opposite(),
    {
        with_sign(!self.is_negative(), self.magnitude())
    }

    /// `self - b`.
    pub fn minus(self, b: Binary32) -> (r: Binary32)
        ensures
            r == self.subtracted(b),
    {
        self.plus(b.negated())
    }

    /// `self * b`.
    pub fn times(self, b: Binary32) -> (r: Binary32)
        ensures
            r == self.multiplied(b),
    {
        let ma: u32 = self.magnitude();
        let mb: u32 = b.magnitude();
        let negative: bool = self.is_negative() != b.is_negative();
        if ma > INFINITE || mb > INFINITE {
            Binary32 { bits: NAN }
        } else if ma == INFINITE || mb == INFINITE {
            if ma == 0 || mb == 0 {
                Binary32 { bits: NAN }
            } else {
                with_sign(negative, INFINITE)
            }
        } else {
            with_sign(negative, multiply_amounts(ma, mb))
        }
    }

    /// `self / b`.
    pub fn over(self, b: Binary32) -> (r: Binary32)
        ensures
            r == self.divided(b),
    {
        let ma: u32 = self.magnitude();
        let mb: u32 = b.magnitude();
        let negative: bool = self.is_negative() != b.is_negative();
        if ma > INFINITE || mb > INFINITE {
            Binary32 { bits: NAN }
        } else if ma == INFINITE {
            if mb == INFINITE {
                Binary32 { bits: NAN }
            } else {
                with_sign(negative, INFINITE)
            }
        } else if mb == INFINITE {
            with_sign(negative, 0)
        } else if mb == 0 {
            if ma == 0 {
                Binary32 { bits: NAN }
            } else {
                with_sign(negative, INFINITE)
            }
        } else {
            with_sign(negative, divide_amounts(ma, mb))
        }
    }

    /// `self < b`.
    pub fn less_than(self, b: Binary32) -> (r: bool)
        ensures
            r == self.below(b),
    {
        let ma: u32 = self.magnitude();
        let mb: u32 = b.magnitude();
        if ma > INFINITE || mb > INFINITE {
            return false;
        }
        proof {
            lemma_order(ma as nat, mb as nat);
        }
        if self.is_negative() {
            if b.is_negative() {
                mb < ma
            } else {
                ma > 0 || mb > 0
            }
        } else if b.is_negative() {
            false
        } else {
            ma < mb
        }
    }
}

/// Zero stands for nothing.
pub(crate) proof fn lemma_zero_amount()
    ensures
        (Binary32 { bits: 0 }).amount() == 0,
{
    lemma_order(0, 0);
}

/// One and two are 2^149 and 2^150 of the smallest positive number.
pub(crate) proof fn lemma_one_and_two()
    ensures
        (Binary32 { bits: 0x3f80_0000 }).amount() == pow2(149),
        (Binary32 { bits: 0x4000_0000 }).amount() == 2 * pow2(149),
        pow2(149) > 0,
{
    lemma_amount(126, STEP as nat);
    lemma_amount(127, STEP as nat);
    lemma2_to64();
    lemma_pow2_adds(23, 126);
    lemma_pow2_adds(23, 127);
    lemma_pow2_unfold(150);
    lemma_pow2_pos(149);
    assert(126 * (STEP as nat) + STEP as nat == 0x3f80_0000);
    assert(127 * (STEP as nat) + STEP as nat == 0x4000_0000);
}

impl Binary32 {
    /// The opposite stands for the opposite amount.
    pub(crate) proof fn lemma_opposite(self)
        ensures
            self.opposite().amount() == -self.amount(),
    {
    }
}

impl Binary32 {
    /// Neither sum nor product depends on the order of the two numbers.
    pub proof fn law_commutes(self, b: Binary32)
        ensures
            self.added(b) == b.added(self),
            self.multiplied(b) == b.multiplied(self),
    {
        assert(amount_of(self.mag()) * amount_of(b.mag()) == amount_of(b.mag()) * amount_of(
            self.mag(),
        )) by (nonlinear_arith);
    }

    /// Adding zero changes no number but the negative zero.
    pub proof fn law_zero_is_neutral(self)
        requires
            !self.nan(),
            self.bits != SIGN,
        ensures
            self.added(Binary32 { bits: 0 }) == self,
    {
        let zero = Binary32 { bits: 0 };
        let mag = self.mag();
        lemma_order(0, 0);
        if !self.infinite() && mag != 0 {
            lemma_order(0, mag);
            lemma_increasing((mag - 1) as nat, mag);
            lemma_increasing(mag, mag + 1);
            assert(is_nearest(amount_of(mag), 1, mag));
            lemma_nearest(amount_of(mag), 1, mag);
        }
    }

    /// Of two numbers one is below the other, or they stand for the same amount; and what
    /// is below a number is below those that the number is below.
    pub proof fn law_below_orders(self, b: Binary32, c: Binary32)
        requires
            !self.nan(),
            !b.nan(),
            !c.nan(),
        ensures
            !(self.below(b) && b.below(self)),
            self.below(b) || b.below(self) || self.amount() == b.amount(),
            self.below(b) && b.below(c) ==> self.below(c),
    {
    }
}

/// The fraction `n / d` does not lie below the midpoint to the pattern before `r`.
spec fn not_below(n: nat, d: nat, r: nat) -> bool {
    0 < r ==> {
        let low = (amount_of((r - 1) as nat) + amount_of(r)) * d;
        low < 2 * n || (low == 2 * n && r % 2 == 0)
    }
}

proof fn lemma_some_nearest(n: nat, d: nat, r: nat)
    requires
        r <= INFINITE,
        r < INFINITE ==> !not_below(n, d, r + 1),
    ensures
        exists|s: nat| is_nearest(n, d, s),
    decreases r,
{
    if not_below(n, d, r) {
        assert(is_nearest(n, d, r));
    } else {
        lemma_some_nearest(n, d, (r - 1) as nat);
    }
}

/// Every fraction has a nearest pattern, and only one.
pub proof fn law_nearest_is_nearest(n: nat, d: nat, r: nat)
    requires
        d > 0,
    ensures
        is_nearest(n, d, nearest(n, d)),
        is_nearest(n, d, r) ==> r == nearest(n, d),
{
    lemma_some_nearest(n, d, INFINITE as nat);
    if is_nearest(n, d, r) {
        lemma_nearest_unique(n, d, nearest(n, d), r);
    }
}

impl Binary32 {
    /// The number is a sum that started from zero: it is not the negative zero, and if it
    /// is not a number, it has the pattern of results that are none.
    pub(crate) open spec fn summed_up(self) -> bool {
        self.bits != SIGN && (self.nan() ==> self == not_a_number())
    }

    /// Adding to such a sum makes such a sum.
    pub(crate) proof fn lemma_summed_up(self, b: Binary32)
        requires
            self.summed_up(),
        ensures
            self.added(b).summed_up(),
    {
        lemma_order(self.mag(), b.mag());
        if !self.nan() && !b.nan() && !self.infinite() && !b.infinite() {
            let exact = self.amount() + b.amount();
            if exact != 0 {
                let size: nat = if exact > 0 {
                    exact as nat
                } else {
                    (-exact) as nat
                };
                law_nearest_is_nearest(size, 1, 0);
                let r = nearest(size, 1);
                lemma_amount(0, 0);
                lemma_amount(0, 1);
                vstd::arithmetic::power2::lemma2_to64();
                assert(amount_of(0) == 0 && amount_of(1) == 1);
                assert(r != 0);
                assert(r <= INFINITE);
            }
        }
    }

    /// Adding zero changes no such sum.
    pub(crate) proof fn lemma_summed_zero(self)
        requires
            self.summed_up(),
        ensures
            self.added(Binary32 { bits: 0 }) == self,
    {
        if !self.nan() {
            self.law_zero_is_neutral();
        }
    }
}

} // verus!
