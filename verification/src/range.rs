//! Bounds on computed numbers: rounding keeps order, so values that are
//! confined exactly stay confined after rounding.
use crate::color::unit;
use crate::rounding::{
    code, lemma_code_error, lemma_code_exact, lemma_code_monotone, lemma_code_near,
    lemma_magnitude_increases, magnitude,
};
use crate::single::{
    law_times_commutes, law_times_nothing, lemma_infinity_units, lemma_magnitude_zero,
    lemma_nearest_exact, nearest, Single, INFINITY, ONE,
};
use vstd::arithmetic::div_mod::*;
use vstd::arithmetic::power2::*;
use vstd::prelude::*;

verus! {

/// Not a number, or at least zero.
pub open spec fn non_negative(x: Single) -> bool {
    x.nan() || x.value() >= 0
}

/// Not a number, or at most one.
pub open spec fn at_most_one(x: Single) -> bool {
    x.nan() || x.value() <= pow2(149)
}

/// Not a number, or between zero and one.
pub open spec fn in_unit(x: Single) -> bool {
    non_negative(x) && at_most_one(x)
}

pub proof fn lemma_one()
    ensures
        (Single { bits: ONE }).units() == pow2(149),
        (Single { bits: ONE }).value() == pow2(149),
        (Single { bits: ONE }).finite(),
        (Single { bits: 0 }).value() == 0,
        (Single { bits: 0 }).units() == 0,
        pow2(149) > 0,
        pow2(149) < pow2(277),
{
    assert(pow2(23) == 0x80_0000) by {
        lemma2_to64();
    }
    lemma_pow2_adds(23, 126);
    assert(ONE as nat / 0x80_0000 == 127 && ONE as nat % 0x80_0000 == 0);
    assert(magnitude(ONE as nat, 24) == (0 + pow2(23)) * pow2(126));
    lemma_magnitude_zero();
    lemma_pow2_pos(149);
    lemma_pow2_strictly_increases(149, 277);
}

/// The value of a number whose pattern is known.
pub proof fn lemma_known(bits: u32, m: nat, e: nat)
    requires
        0x80_0000 <= m < 0x100_0000,
        e < 254,
        bits == e * 0x80_0000 + m,
    ensures
        (Single { bits }).finite(),
        (Single { bits }).units() == m * pow2(e),
        (Single { bits }).value() == m * pow2(e),
{
    assert(pow2(23) == 0x80_0000) by {
        lemma2_to64();
    }
    assert(bits as nat / 0x80_0000 == e + 1 && bits as nat % 0x80_0000 == m - 0x80_0000);
}

/// The code of a magnitude that is not above another code's is not above that
/// code.
pub proof fn lemma_nearest_at_most(n: nat, d: nat, c: nat)
    requires
        d > 0,
        c <= INFINITY,
        n <= magnitude(c, 24) * d,
    ensures
        nearest(n, d) <= c,
        magnitude(nearest(n, d), 24) <= magnitude(c, 24),
{
    let m = magnitude(c, 24);
    lemma_code_exact(c, 24);
    assert(n * 1 <= m * d);
    lemma_code_monotone(n, d, m, 1, 24);
    let k = nearest(n, d);
    if k < c {
        lemma_magnitude_increases(k, c, 24);
    }
}

pub proof fn lemma_nearest_at_least(n: nat, d: nat, c: nat)
    requires
        d > 0,
        c <= INFINITY,
        n >= magnitude(c, 24) * d,
    ensures
        nearest(n, d) >= c,
        magnitude(nearest(n, d), 24) >= magnitude(c, 24),
{
    let m = magnitude(c, 24);
    lemma_code_exact(c, 24);
    assert(m * d <= n * 1);
    lemma_code_monotone(m, 1, n, d, 24);
    let k = nearest(n, d);
    if c < k {
        lemma_magnitude_increases(c, k, 24);
    }
}

pub proof fn lemma_nearest_monotone(n1: nat, n2: nat)
    requires
        n1 <= n2,
    ensures
        magnitude(nearest(n1, 1), 24) <= magnitude(nearest(n2, 1), 24),
{
    lemma_code_monotone(n1, 1, n2, 1, 24);
    let k1 = nearest(n1, 1);
    let k2 = nearest(n2, 1);
    if k1 < k2 {
        lemma_magnitude_increases(k1, k2, 24);
    }
}

/// What an exact value in units becomes by rounding.
pub open spec fn rounded(v: int) -> int {
    if v >= 0 {
        magnitude(nearest(v as nat, 1), 24) as int
    } else {
        -(magnitude(nearest((-v) as nat, 1), 24) as int)
    }
}

pub proof fn lemma_rounded_monotone(v: int, w: int)
    requires
        v <= w,
    ensures
        rounded(v) <= rounded(w),
        v >= 0 ==> rounded(v) >= 0,
        v <= 0 ==> rounded(v) <= 0,
{
    lemma_rounded_zero();
    if v >= 0 {
        lemma_nearest_monotone(v as nat, w as nat);
    } else if w < 0 {
        lemma_nearest_monotone((-w) as nat, (-v) as nat);
    }
}

proof fn lemma_rounded_zero()
    ensures
        rounded(0) == 0,
{
    lemma_magnitude_zero();
    lemma_code_exact(0, 24);
}

/// The value of a sum of finite numbers is the exact sum, rounded.
pub proof fn lemma_plus_value(a: Single, b: Single)
    requires
        a.finite(),
        b.finite(),
    ensures
        !a.plus_spec(b).nan(),
        a.plus_spec(b).value() == rounded(a.value() + b.value()),
{
    reveal(Single::plus_spec);
    lemma_rounded_zero();
    lemma_magnitude_zero();
}

/// How far the single nearest to a quotient of less than `k` bits is from it.
pub proof fn lemma_nearest_near(n: nat, d: nat, k: nat)
    requires
        d > 0,
        24 <= k <= 270,
        n < pow2(k) * d,
    ensures
        nearest(n, d) < INFINITY,
        2 * (magnitude(nearest(n, d), 24) * d) <= 2 * n + d * pow2((k - 24) as nat),
        2 * n <= 2 * (magnitude(nearest(n, d), 24) * d) + d * pow2((k - 24) as nat),
{
    lemma_code_near(n, d, k, 24);
    lemma_infinity_units();
    let c = code(n, d, 24);
    let m = magnitude(c, 24);
    lemma_pow2_strictly_increases((k - 24) as nat, k);
    lemma_pow2_unfold(k + 1);
    lemma_pow2_strictly_increases(k + 1, 277);
    assert(m < pow2(277)) by (nonlinear_arith)
        requires
            2 * (m * d) <= 2 * n + d * pow2((k - 24) as nat),
            n < pow2(k) * d,
            pow2((k - 24) as nat) <= pow2(k),
            2 * pow2(k) < pow2(277),
            d > 0,
    ;
    if c > INFINITY {
        lemma_magnitude_increases(INFINITY as nat, c, 24);
    }
}

/// How far a sum of less than `k` bits is from the exact one.
pub proof fn lemma_plus_near(a: Single, b: Single, k: nat)
    requires
        a.finite(),
        b.finite(),
        24 <= k <= 270,
        -pow2(k) < a.value() + b.value() < pow2(k),
    ensures
        a.plus_spec(b).finite(),
        2 * a.plus_spec(b).value() <= 2 * (a.value() + b.value()) + pow2((k - 24) as nat),
        2 * (a.value() + b.value()) <= 2 * a.plus_spec(b).value() + pow2((k - 24) as nat),
{
    let v = a.value() + b.value();
    let n = (if v < 0 {
        -v
    } else {
        v
    }) as nat;
    assert(pow2(k) * 1 == pow2(k));
    lemma_nearest_near(n, 1, k);
    lemma_plus_value(a, b);
    reveal(Single::plus_spec);
}

/// How far a product of less than `k` bits is from the exact one.
pub proof fn lemma_times_near(a: Single, b: Single, k: nat)
    requires
        a.finite(),
        b.finite(),
        a.value() >= 0,
        b.value() >= 0,
        24 <= k <= 270,
        a.value() * b.value() < pow2(k) * pow2(149),
    ensures
        a.times_spec(b).finite(),
        a.times_spec(b).value() >= 0,
        2 * (a.times_spec(b).value() * pow2(149)) <= 2 * (a.value() * b.value()) + pow2(149)
            * pow2((k - 24) as nat),
        2 * (a.value() * b.value()) <= 2 * (a.times_spec(b).value() * pow2(149)) + pow2(149)
            * pow2((k - 24) as nat),
{
    lemma_one();
    assert(a.units() == a.value() && b.units() == b.value());
    lemma_times_non_negative(a, b);
    lemma_nearest_near(a.units() * b.units(), pow2(149), k);
    reveal(Single::times_spec);
    let r = a.times_spec(b);
    assert(r.value() == r.units());
}

/// The same where the second factor may be below zero.
pub proof fn lemma_times_near_signed(a: Single, b: Single, k: nat)
    requires
        a.finite(),
        b.finite(),
        a.value() >= 0,
        24 <= k <= 270,
        -(pow2(k) * pow2(149)) < a.value() * b.value() < pow2(k) * pow2(149),
    ensures
        a.times_spec(b).finite(),
        2 * (a.times_spec(b).value() * pow2(149)) <= 2 * (a.value() * b.value()) + pow2(149)
            * pow2((k - 24) as nat),
        2 * (a.value() * b.value()) <= 2 * (a.times_spec(b).value() * pow2(149)) + pow2(149)
            * pow2((k - 24) as nat),
{
    if b.value() >= 0 {
        lemma_times_near(a, b, k);
    } else {
        let c = b.negate_spec();
        lemma_negate(b);
        assert(a.value() * c.value() == -(a.value() * b.value())) by (nonlinear_arith)
            requires
                c.value() == -b.value(),
        ;
        lemma_times_near(a, c, k);
        lemma_times_negated(a, b);
        let (x, y) = (a.times_spec(b), a.times_spec(c));
        assert(x.mag() == y.mag()) by {
            reveal(Single::times_spec);
        }
        assert(y.value() * pow2(149) == -(x.value() * pow2(149))) by (nonlinear_arith)
            requires
                y.value() == -x.value(),
        ;
    }
}

/// How far the single nearest to a quotient is from it, as a part of it.
pub proof fn lemma_nearest_relative(n: nat, d: nat)
    requires
        d > 0,
        nearest(n, d) < INFINITY,
    ensures
        0x100_0000 * (magnitude(nearest(n, d), 24) * d) <= 0x100_0000 * n + n + 0x80_0000 * d,
        0x100_0000 * n <= 0x100_0000 * (magnitude(nearest(n, d), 24) * d) + n + 0x80_0000 * d,
{
    assert(pow2(23) == 0x80_0000) by {
        lemma2_to64();
    }
    lemma_code_error(n, d, 24);
}

/// How far a quotient of less than `k` bits is from the exact one.
pub proof fn lemma_over_near(a: Single, b: Single, k: nat)
    requires
        a.finite(),
        b.finite(),
        a.value() >= 0,
        b.value() > 0,
        24 <= k <= 270,
        a.value() * pow2(149) < pow2(k) * b.value(),
    ensures
        a.over_spec(b).finite(),
        a.over_spec(b).value() >= 0,
        2 * (a.over_spec(b).value() * b.value()) <= 2 * (a.value() * pow2(149)) + b.value() * pow2(
            (k - 24) as nat,
        ),
        2 * (a.value() * pow2(149)) <= 2 * (a.over_spec(b).value() * b.value()) + b.value() * pow2(
            (k - 24) as nat,
        ),
{
    lemma_over_order(a, a, b);
    lemma_no_units(b);
    assert(a.units() == a.value() && b.units() == b.value());
    lemma_nearest_near(a.units() * pow2(149), b.units(), k);
    reveal(Single::over_spec);
    let r = a.over_spec(b);
    assert(r.value() == r.units());
}

/// A number that already is a single is not moved.
pub proof fn lemma_rounded_exact(a: Single)
    requires
        a.finite(),
    ensures
        rounded(a.value()) == a.value(),
{
    lemma_code_exact(a.mag(), 24);
    lemma_rounded_zero();
}

pub proof fn lemma_finite_or_infinite(a: Single)
    requires
        !a.nan(),
        !a.finite(),
    ensures
        a.infinite(),
        a.units() == pow2(277),
        a.value() == pow2(277) || a.value() == -(pow2(277) as int),
{
    lemma_infinity_units();
}

/// Only zeros have a magnitude of zero.
pub proof fn lemma_no_units(a: Single)
    ensures
        a.units() == 0 <==> a.zero(),
{
    lemma_magnitude_zero();
    if a.mag() > 0 {
        lemma_magnitude_increases(0, a.mag(), 24);
    }
}

/// Turning the sign of a number turns the sign of its value.
pub proof fn lemma_negate(a: Single)
    ensures
        a.negate_spec().value() == -a.value(),
        a.negate_spec().nan() == a.nan(),
        a.negate_spec().finite() == a.finite(),
{
}

/// Sums of finite numbers keep the order of the exact sums.
pub proof fn lemma_plus_order(a: Single, b: Single, c: Single, d: Single)
    requires
        a.finite(),
        b.finite(),
        c.finite(),
        d.finite(),
        a.value() + b.value() <= c.value() + d.value(),
    ensures
        a.plus_spec(b).value() <= c.plus_spec(d).value(),
{
    lemma_plus_value(a, b);
    lemma_plus_value(c, d);
    lemma_rounded_monotone(a.value() + b.value(), c.value() + d.value());
}

/// A finite sum is not below a number that the exact sum is not below.
pub proof fn lemma_plus_at_least(a: Single, b: Single, c: Single)
    requires
        a.finite(),
        b.finite(),
        c.finite(),
        a.value() + b.value() >= c.value(),
    ensures
        !a.plus_spec(b).nan(),
        a.plus_spec(b).value() >= c.value(),
{
    lemma_plus_value(a, b);
    lemma_rounded_monotone(c.value(), a.value() + b.value());
    lemma_rounded_exact(c);
}

pub proof fn lemma_nan_terms(a: Single, b: Single)
    requires
        a.nan() || b.nan(),
    ensures
        a.plus_spec(b).nan(),
        a.minus_spec(b).nan(),
{
    reveal(Single::plus_spec);
}

pub proof fn lemma_nan_factors(a: Single, b: Single)
    requires
        a.nan() || b.nan(),
    ensures
        a.times_spec(b).nan(),
        a.over_spec(b).nan(),
{
    reveal(Single::times_spec);
    reveal(Single::over_spec);
}

/// Nothing finite changes infinity.
pub proof fn lemma_infinite_term(a: Single, b: Single)
    requires
        a.infinite(),
        b.finite(),
    ensures
        a.plus_spec(b) == a,
        b.plus_spec(a) == a,
{
    reveal(Single::plus_spec);
}

pub proof fn lemma_square_non_negative(a: Single)
    ensures
        non_negative(a.times_spec(a)),
{
    reveal(Single::times_spec);
}

pub proof fn lemma_plus_non_negative(a: Single, b: Single)
    requires
        non_negative(a),
        non_negative(b),
    ensures
        non_negative(a.plus_spec(b)),
{
    lemma_one();
    if a.finite() && b.finite() {
        lemma_plus_value(a, b);
        lemma_rounded_monotone(0, a.value() + b.value());
        lemma_rounded_zero();
    } else {
        reveal(Single::plus_spec);
    }
}

pub proof fn lemma_times_non_negative(a: Single, b: Single)
    requires
        non_negative(a),
        non_negative(b),
    ensures
        non_negative(a.times_spec(b)),
{
    reveal(Single::times_spec);
    lemma_one();
    lemma_infinity_units();
    lemma_magnitude_zero();
    lemma_no_units(a);
    lemma_no_units(b);
    if a.finite() && b.finite() && a.negative() != b.negative() {
        assert(a.units() == 0 || b.units() == 0);
        assert(a.units() * b.units() == 0) by (nonlinear_arith)
            requires
                a.units() == 0 || b.units() == 0,
        ;
        lemma_nearest_at_most(0, pow2(149), 0);
        assert(0 * pow2(149) == 0);
    }
}

/// A larger number times a positive one is no smaller in magnitude.
proof fn lemma_times_units(a: Single, b: Single, k: Single)
    requires
        !a.nan(),
        !b.nan(),
        a.units() <= b.units(),
        k.finite(),
        k.value() > 0,
    ensures
        !a.times_spec(k).nan(),
        !b.times_spec(k).nan(),
        a.times_spec(k).units() <= b.times_spec(k).units(),
        a.value() >= 0 ==> a.times_spec(k).value() >= 0,
        a.value() <= 0 ==> a.times_spec(k).value() <= 0,
{
    reveal(Single::times_spec);
    lemma_infinity_units();
    lemma_magnitude_zero();
    lemma_pow2_pos(149);
    lemma_no_units(a);
    lemma_no_units(k);
    let x = a.times_spec(k);
    let y = b.times_spec(k);
    assert(0 * k.units() == 0 && 0 * pow2(149) == 0);
    lemma_nearest_at_most(0, pow2(149), 0);
    if a.infinite() && b.mag() < INFINITY {
        lemma_magnitude_increases(b.mag(), INFINITY as nat, 24);
    }
    if x.mag() < INFINITY {
        lemma_magnitude_increases(x.mag(), INFINITY as nat, 24);
    }
    if a.finite() && b.finite() {
        let m = a.units() * k.units();
        let n = b.units() * k.units();
        let d = pow2(149);
        assert(m <= n && m * d <= n * d) by (nonlinear_arith)
            requires
                a.units() <= b.units(),
                m == a.units() * k.units(),
                n == b.units() * k.units(),
                k.units() >= 0,
                d >= 0,
        ;
        lemma_code_monotone(m, d, n, d, 24);
        if x.mag() < y.mag() {
            lemma_magnitude_increases(x.mag(), y.mag(), 24);
        }
    }
}

/// Multiplying by a positive number keeps numbers in order.
pub proof fn lemma_times_order(a: Single, b: Single, k: Single)
    requires
        !a.nan(),
        !b.nan(),
        a.value() <= b.value(),
        k.finite(),
        k.value() > 0,
    ensures
        !a.times_spec(k).nan(),
        !b.times_spec(k).nan(),
        a.times_spec(k).value() <= b.times_spec(k).value(),
{
    lemma_times_units(a, a, k);
    lemma_times_units(b, b, k);
    if a.units() <= b.units() {
        lemma_times_units(a, b, k);
    }
    if b.units() <= a.units() {
        lemma_times_units(b, a, k);
    }
}

/// An integer of up to 64 bits as a single.
pub proof fn lemma_of_finite(n: nat)
    requires
        n <= u64::MAX,
    ensures
        Single::of(n as int).finite(),
        Single::of(n as int).value() >= 0,
        n > 0 ==> Single::of(n as int).value() > 0,
{
    let u = pow2(149);
    let top = (1 * pow2(213)) * 1;
    reveal(Single::of);
    lemma_one();
    lemma_pow2_adds(64, 149);
    assert(pow2(64) == 0x1_0000_0000_0000_0000) by {
        lemma2_to64();
    }
    assert(n * u <= top) by (nonlinear_arith)
        requires
            n <= 0x1_0000_0000_0000_0000,
            top == 0x1_0000_0000_0000_0000 * u,
            u >= 0,
    ;
    lemma_nearest_exact(top, 1, 1, 213);
    lemma_code_monotone(n * u, 1, top, 1, 24);
    if n > 0 {
        assert(n * u >= u * 1) by (nonlinear_arith)
            requires
                n >= 1,
                u >= 0,
        ;
        lemma_nearest_at_least(n * u, 1, ONE as nat);
    }
}

/// Dividing by a positive number keeps numbers in order.
pub proof fn lemma_over_order(a: Single, b: Single, k: Single)
    requires
        a.finite(),
        b.finite(),
        0 <= a.value() <= b.value(),
        k.finite(),
        k.value() > 0,
    ensures
        !a.over_spec(k).nan(),
        !b.over_spec(k).nan(),
        0 <= a.over_spec(k).value() <= b.over_spec(k).value(),
{
    reveal(Single::over_spec);
    lemma_infinity_units();
    lemma_magnitude_zero();
    lemma_no_units(k);
    lemma_no_units(a);
    lemma_no_units(b);
    let x = a.over_spec(k);
    let y = b.over_spec(k);
    let d = k.units();
    let m = a.units() * pow2(149);
    let n = b.units() * pow2(149);
    assert(m * d <= n * d) by (nonlinear_arith)
        requires
            a.units() <= b.units(),
            m == a.units() * pow2(149),
            n == b.units() * pow2(149),
            pow2(149) >= 0,
            d >= 0,
    ;
    lemma_code_monotone(m, d, n, d, 24);
    if x.mag() < y.mag() {
        lemma_magnitude_increases(x.mag(), y.mag(), 24);
    }
    assert(0 * pow2(149) == 0 && 0 * d == 0);
    lemma_nearest_at_most(0, d, 0);
}

/// A larger share of a number is further from zero on the same side.
pub proof fn lemma_share_order(d: Single, p: Single, q: Single)
    requires
        d.finite(),
        p.finite(),
        q.finite(),
        0 <= p.value() <= q.value(),
    ensures
        !d.times_spec(p).nan(),
        !d.times_spec(q).nan(),
        d.value() >= 0 ==> 0 <= d.times_spec(p).value() <= d.times_spec(q).value(),
        d.value() <= 0 ==> d.times_spec(q).value() <= d.times_spec(p).value() <= 0,
{
    lemma_infinity_units();
    law_times_commutes(d, p);
    law_times_commutes(d, q);
    if d.value() == 0 {
        lemma_no_units(d);
        law_times_nothing(d, p);
        law_times_nothing(d, q);
        lemma_no_units(d.times_spec(p));
        lemma_no_units(d.times_spec(q));
    } else if d.value() > 0 {
        lemma_times_order(p, q, d);
        lemma_times_units(p, p, d);
    } else {
        let k = d.negate_spec();
        lemma_negate(d);
        lemma_times_order(p, q, k);
        lemma_times_units(p, p, k);
        lemma_times_negated(p, d);
        lemma_times_negated(q, d);
    }
}

/// Turning the sign of a factor turns the sign of a product.
pub proof fn lemma_times_negated(a: Single, b: Single)
    requires
        a.finite(),
        b.finite(),
    ensures
        !a.times_spec(b).nan(),
        a.times_spec(b.negate_spec()).value() == -a.times_spec(b).value(),
{
    reveal(Single::times_spec);
    lemma_negate(b);
}

/// The product of two numbers in `[0, 1]` is in `[0, 1]`.
pub proof fn lemma_times_in_unit(a: Single, b: Single)
    requires
        in_unit(a),
        in_unit(b),
    ensures
        in_unit(a.times_spec(b)),
{
    lemma_times_non_negative(a, b);
    reveal(Single::times_spec);
    lemma_one();
    lemma_infinity_units();
    if !a.nan() && !b.nan() {
        let w = pow2(149);
        assert(a.units() * b.units() <= w * w) by (nonlinear_arith)
            requires
                0 <= a.units() <= w,
                0 <= b.units() <= w,
        ;
        lemma_nearest_at_most(a.units() * b.units(), w, ONE as nat);
    }
}

/// One minus a number in `[0, 1]` is in `[0, 1]`.
pub proof fn lemma_rest_in_unit(a: Single)
    requires
        in_unit(a),
    ensures
        in_unit((Single { bits: ONE }).minus_spec(a)),
        a.nan() <==> (Single { bits: ONE }).minus_spec(a).nan(),
{
    lemma_one();
    let one = Single { bits: ONE };
    if a.nan() {
        reveal(Single::plus_spec);
    } else {
        lemma_infinity_units();
        assert(a.finite());
        let b = a.negate_spec();
        lemma_plus_value(one, b);
        lemma_rounded_monotone(0, one.value() + b.value());
        lemma_rounded_monotone(one.value() + b.value(), one.value());
        lemma_rounded_exact(one);
        lemma_rounded_zero();
    }
}

pub proof fn lemma_unit_in_unit(x: Single)
    ensures
        in_unit(unit(x)),
{
    lemma_one();
}

/// The pattern of 32768.0.
pub const FULL: u32 = 0x4700_0000;

/// A number of at most one, in fix15 and cut to an integer, is at most one.
pub proof fn lemma_scaled_at_most_one(x: Single)
    requires
        at_most_one(x),
    ensures
        x.times_spec(Single { bits: FULL }).to_u32_spec() <= 32768,
{
    let full = Single { bits: FULL };
    let r = x.times_spec(full);
    reveal(Single::times_spec);
    lemma_one();
    lemma_infinity_units();
    lemma_magnitude_zero();
    assert(pow2(23) == 0x80_0000 && pow2(15) == 0x8000) by {
        lemma2_to64();
    }
    lemma_pow2_adds(23, 141);
    assert(FULL as nat / 0x80_0000 == 142 && FULL as nat % 0x80_0000 == 0);
    assert(magnitude(FULL as nat, 24) == (0 + pow2(23)) * pow2(141));
    assert(full.units() == pow2(164));
    lemma_pow2_adds(15, 149);
    if !x.nan() {
        if r.negative() {
            lemma_div_pos_is_pos(r.units() as int, pow2(149) as int);
        } else {
            assert(x.finite());
            let n = x.units() * full.units();
            assert(n <= pow2(164) * pow2(149)) by (nonlinear_arith)
                requires
                    n == x.units() * full.units(),
                    0 <= x.units() <= pow2(149),
                    full.units() == pow2(164),
            ;
            lemma_nearest_at_most(n, pow2(149), FULL as nat);
            lemma_div_is_ordered(r.units() as int, pow2(164) as int, pow2(149) as int);
            lemma_div_by_multiple(0x8000, pow2(149) as int);
        }
    }
}

} // verus!
