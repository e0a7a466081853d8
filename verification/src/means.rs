//! Parts of a way, in exact arithmetic: what lies where between two numbers.
//!
//! Values are in units of 2^-149, so that one is 2^149.
use crate::range::{
    lemma_nearest_near, lemma_nearest_relative, lemma_negate, lemma_no_units, lemma_one,
    lemma_plus_near, lemma_plus_value, lemma_rest_in_unit, lemma_rounded_exact,
    lemma_rounded_monotone, lemma_times_in_unit, lemma_times_near_signed, rounded,
};
use crate::rounding::lemma_magnitude_increases;
use crate::single::{law_times_commutes, law_times_nothing, lemma_nearest_exact, Single, ONE};
use vstd::arithmetic::power2::*;
use vstd::prelude::*;

verus! {

/// The magnitude of an integer.
pub open spec fn size(v: int) -> int {
    if v < 0 {
        -v
    } else {
        v
    }
}

/// A finite number of a magnitude of at most 2^k units.
pub open spec fn spans(v: Single, k: nat) -> bool {
    v.finite() && size(v.value()) <= pow2(k)
}

/// A number from zero to one.
pub open spec fn proper(part: Single) -> bool {
    part.finite() && 0 <= part.value() <= pow2(149)
}

/// Whether `r` lies the part `part` of the way from `a` to `b`, within 2^k
/// units.
pub open spec fn part_way(a: Single, b: Single, part: Single, r: Single, k: nat) -> bool {
    let u = pow2(149) as int;
    let f = part.value();
    &&& r.finite()
    &&& size(u * r.value() - ((u - f) * a.value() + f * b.value())) <= u * pow2(k)
}

proof fn lemma_errors_add(u: int, f: int, a: int, b: int, d: int, s: int, r: int)
    ensures
        u * r - ((u - f) * a + f * b) == (u * s - f * d) + f * (d - (b - a)) + u * (r - (a + s)),
{
    assert((u - f) * a == u * a - f * a) by (nonlinear_arith);
    assert(f * (d - (b - a)) == f * d - f * b + f * a) by (nonlinear_arith);
    assert(u * (r - (a + s)) == u * r - u * a - u * s) by (nonlinear_arith);
}

/// Going a part of the way, as it is computed.
pub proof fn lemma_part_way(a: Single, b: Single, part: Single, k: nat)
    requires
        spans(a, k),
        spans(b, k),
        proper(part),
        24 <= k <= 240,
    ensures
        part_way(a, b, part, a.plus_spec(part.times_spec(b.minus_spec(a))), (k - 21) as nat),
        part_way(a, b, part, a.plus_spec(b.minus_spec(a).times_spec(part)), (k - 21) as nat),
        part.value() == 0 ==> a.plus_spec(part.times_spec(b.minus_spec(a))).value() == a.value(),
        a.value() == b.value() ==> a.plus_spec(part.times_spec(b.minus_spec(a))).value()
            == a.value(),
{
    let u = pow2(149) as int;
    let w = pow2((k - 23) as nat) as int;
    let p = pow2(k) as int;
    let f = part.value();
    let d = b.minus_spec(a);
    let s = part.times_spec(d);
    let r = a.plus_spec(s);
    law_times_commutes(part, d);
    lemma_one();
    lemma_pow2_unfold((k - 22) as nat);
    lemma_pow2_unfold((k - 21) as nat);
    lemma_pow2_unfold(k + 1);
    lemma_pow2_unfold(k + 2);
    lemma_pow2_pos(k);
    lemma_pow2_pos((k - 23) as nat);
    lemma_pow2_adds(23, (k - 23) as nat);
    assert(pow2(23) == 0x80_0000) by {
        lemma2_to64();
    }
    assert(p == 0x80_0000 * w);
    lemma_negate(a);
    lemma_plus_near(b, a.negate_spec(), k + 2);
    let dv = d.value();
    let e1 = dv - (b.value() - a.value());
    assert(-w <= e1 <= w);
    assert(-3 * p < dv < 3 * p);
    let fd = f * dv;
    assert(-(4 * p * u) < fd < 4 * p * u) by (nonlinear_arith)
        requires
            fd == f * dv,
            0 <= f <= u,
            -3 * p < dv < 3 * p,
            p > 0,
            u > 0,
    ;
    assert(4 * p * u == pow2(k + 2) * pow2(149));
    lemma_times_near_signed(part, d, k + 2);
    let sv = s.value();
    let e2 = u * sv - fd;
    assert(-(u * w) <= e2 <= u * w) by (nonlinear_arith)
        requires
            2 * (sv * u) <= 2 * fd + u * (2 * w),
            2 * fd <= 2 * (sv * u) + u * (2 * w),
            e2 == u * sv - fd,
    ;
    assert(-3 * p - w <= sv <= 3 * p + w) by (nonlinear_arith)
        requires
            e2 == u * sv - fd,
            fd == f * dv,
            -(u * w) <= e2 <= u * w,
            0 <= f <= u,
            -3 * p < dv < 3 * p,
            p > 0,
            u > 0,
    ;
    lemma_pow2_unfold(k + 3);
    lemma_plus_near(a, s, k + 3);
    let e3 = r.value() - (a.value() + sv);
    assert(-2 * w <= e3 <= 2 * w);
    let x = u * r.value() - ((u - f) * a.value() + f * b.value());
    lemma_errors_add(u, f, a.value(), b.value(), dv, sv, r.value());
    assert(-(u * w) <= f * e1 <= u * w) by (nonlinear_arith)
        requires
            0 <= f <= u,
            -w <= e1 <= w,
    ;
    assert(-(2 * (u * w)) <= u * e3 <= 2 * (u * w)) by (nonlinear_arith)
        requires
            -2 * w <= e3 <= 2 * w,
            u > 0,
    ;
    assert(u * (4 * w) == 4 * (u * w)) by (nonlinear_arith);
    if f == 0 || a.value() == b.value() {
        lemma_no_units(part);
        if f != 0 {
            lemma_plus_value(b, a.negate_spec());
            lemma_rounded_exact(Single { bits: 0 });
            lemma_no_units(d);
            law_times_nothing(d, part);
        } else {
            law_times_nothing(part, d);
        }
        lemma_no_units(s);
        lemma_plus_value(a, s);
        lemma_rounded_exact(a);
    }
}

/// Whether `r` is `a` and the part `part` of `d`, within 2^k units.
pub open spec fn part_added(a: Single, d: Single, part: Single, r: Single, k: nat) -> bool {
    let u = pow2(149) as int;
    &&& r.finite()
    &&& size(u * r.value() - (u * a.value() + part.value() * d.value())) <= u * pow2(k)
}

/// Adding a part of a number, as it is computed.
pub proof fn lemma_part_added(a: Single, d: Single, part: Single, k: nat)
    requires
        spans(a, k),
        spans(d, k),
        proper(part),
        24 <= k <= 240,
    ensures
        part_added(a, d, part, a.plus_spec(part.times_spec(d)), (k - 21) as nat),
{
    let u = pow2(149) as int;
    let w = pow2((k - 23) as nat) as int;
    let p = pow2(k) as int;
    let f = part.value();
    let s = part.times_spec(d);
    let r = a.plus_spec(s);
    let (av, dv) = (a.value(), d.value());
    lemma_one();
    lemma_pow2_unfold((k - 22) as nat);
    lemma_pow2_unfold((k - 21) as nat);
    lemma_pow2_unfold(k + 1);
    lemma_pow2_unfold(k + 2);
    lemma_pow2_pos(k);
    lemma_pow2_pos((k - 23) as nat);
    lemma_pow2_adds(23, (k - 23) as nat);
    assert(pow2(23) == 0x80_0000) by {
        lemma2_to64();
    }
    assert(p == 0x80_0000 * w);
    let fd = f * dv;
    assert(-(2 * p * u) < fd < 2 * p * u && -(p * u) <= fd <= p * u) by (nonlinear_arith)
        requires
            fd == f * dv,
            0 <= f <= u,
            -p <= dv <= p,
            p > 0,
            u > 0,
    ;
    assert(2 * p * u == pow2(k + 1) * pow2(149));
    lemma_times_near_signed(part, d, k + 1);
    let sv = s.value();
    let e2 = u * sv - fd;
    assert(-(u * w) <= e2 <= u * w) by (nonlinear_arith)
        requires
            2 * (sv * u) <= 2 * fd + u * w,
            2 * fd <= 2 * (sv * u) + u * w,
            e2 == u * sv - fd,
            u > 0,
            w > 0,
    ;
    assert(-p - w <= sv <= p + w) by (nonlinear_arith)
        requires
            e2 == u * sv - fd,
            -(u * w) <= e2 <= u * w,
            -(p * u) <= fd <= p * u,
            u > 0,
    ;
    lemma_plus_near(a, s, k + 2);
    let e3 = r.value() - (av + sv);
    assert(u * e3 == u * r.value() - u * av - u * sv) by (nonlinear_arith)
        requires
            e3 == r.value() - (av + sv),
    ;
    assert(-(u * w) <= u * e3 <= u * w) by (nonlinear_arith)
        requires
            -w <= e3 <= w,
            u > 0,
    ;
    assert(u * (4 * w) == 4 * (u * w)) by (nonlinear_arith);
}

/// Whether `x` is within a part in 2^24 of `exact`, or half of `unit`.
pub open spec fn close(x: int, exact: int, unit: int) -> bool {
    0x100_0000 * size(x - exact) <= size(exact) + 0x80_0000 * unit
}

/// A finite sum is close to the exact one.
pub proof fn lemma_plus_close(a: Single, b: Single)
    requires
        a.finite(),
        b.finite(),
        a.plus_spec(b).finite(),
    ensures
        close(a.plus_spec(b).value(), a.value() + b.value(), 1),
{
    let v = a.value() + b.value();
    let n = size(v) as nat;
    reveal(Single::plus_spec);
    if v == 0 {
        lemma_plus_value(a, b);
        lemma_rounded_exact(Single { bits: 0 });
        lemma_one();
    } else {
        lemma_nearest_relative(n, 1);
    }
}

/// A finite product is close to the exact one.
pub proof fn lemma_times_close(a: Single, b: Single)
    requires
        a.finite(),
        b.finite(),
        a.times_spec(b).finite(),
    ensures
        close(pow2(149) * a.times_spec(b).value(), a.value() * b.value(), pow2(149) as int),
{
    let u = pow2(149) as int;
    let r = a.times_spec(b);
    lemma_one();
    reveal(Single::times_spec);
    let n = a.units() * b.units();
    lemma_nearest_relative(n, pow2(149));
    let (av, bv, rv) = (a.value(), b.value(), r.value());
    let s: int = if a.negative() != b.negative() {
        -1
    } else {
        1
    };
    assert(av * bv == s * n) by (nonlinear_arith)
        requires
            av == a.units() && s * bv == b.units() || av == -(a.units() as int) && -(s * bv)
                == b.units(),
            s == 1 || s == -1,
            n == a.units() * b.units(),
    ;
    let ru = r.units() as int;
    assert(rv == s * ru);
    assert(u * rv == s * (ru * u)) by (nonlinear_arith)
        requires
            rv == s * ru,
    ;
    let d = ru * u - n;
    assert(u * rv - av * bv == s * d) by (nonlinear_arith)
        requires
            u * rv == s * (ru * u),
            av * bv == s * n,
            d == ru * u - n,
    ;
    assert(size(s * d) == size(d) && size(s * n) == n) by (nonlinear_arith)
        requires
            s == 1 || s == -1,
            n >= 0,
            size(d) == (if d < 0 {
                -d
            } else {
                d
            }),
            size(s * d) == (if s * d < 0 {
                -(s * d)
            } else {
                s * d
            }),
            size(s * n) == (if s * n < 0 {
                -(s * n)
            } else {
                s * n
            }),
    ;
}

/// A finite quotient by a positive number is close to the exact one.
pub proof fn lemma_over_close(a: Single, b: Single)
    requires
        a.finite(),
        b.finite(),
        b.value() > 0,
        a.over_spec(b).finite(),
    ensures
        close(a.over_spec(b).value() * b.value(), a.value() * pow2(149), b.value()),
{
    let u = pow2(149) as int;
    let r = a.over_spec(b);
    lemma_one();
    lemma_no_units(b);
    reveal(Single::over_spec);
    let n = a.units() * pow2(149);
    lemma_nearest_relative(n, b.units());
    let (av, bv, rv, ru) = (a.value(), b.value(), r.value(), r.units() as int);
    assert(bv == b.units());
    if a.negative() {
        assert(av * u == -(n as int)) by (nonlinear_arith)
            requires
                av == -(a.units() as int),
                n == a.units() * u,
        ;
        assert(rv * bv == -(ru * bv)) by (nonlinear_arith)
            requires
                rv == -ru,
        ;
    }
}

/// A product of less than `k` bits is finite.
pub proof fn lemma_times_finite(a: Single, b: Single, k: nat)
    requires
        a.finite(),
        b.finite(),
        24 <= k <= 270,
        size(a.value()) * size(b.value()) < pow2(k) * pow2(149),
    ensures
        a.times_spec(b).finite(),
{
    lemma_one();
    reveal(Single::times_spec);
    lemma_nearest_near(a.units() * b.units(), pow2(149), k);
}

/// A quotient of less than `k` bits is finite.
pub proof fn lemma_over_finite(a: Single, b: Single, k: nat)
    requires
        a.finite(),
        b.finite(),
        b.value() > 0,
        24 <= k <= 270,
        size(a.value()) * pow2(149) < pow2(k) * b.value(),
    ensures
        a.over_spec(b).finite(),
{
    lemma_one();
    lemma_no_units(b);
    reveal(Single::over_spec);
    lemma_nearest_near(a.units() * pow2(149), b.units(), k);
}

/// The product of two numbers from zero to one, as it is computed.
pub proof fn lemma_proper_product(x: Single, f: Single)
    requires
        proper(x),
        proper(f),
    ensures
        proper(x.times_spec(f)),
        size(pow2(149) * x.times_spec(f).value() - x.value() * f.value()) <= pow2(149) * pow2(126),
{
    let u = pow2(149) as int;
    let w = pow2(125) as int;
    let p = x.times_spec(f);
    let (xv, fv) = (x.value(), f.value());
    lemma_one();
    lemma_pow2_adds(24, 125);
    lemma_pow2_unfold(126);
    lemma_pow2_unfold(150);
    lemma_pow2_pos(125);
    assert(pow2(24) == 0x100_0000) by {
        lemma2_to64();
    }
    assert(0 <= xv * fv <= u * u) by (nonlinear_arith)
        requires
            0 <= xv <= u,
            0 <= fv <= u,
    ;
    assert(u * u < pow2(150) * pow2(149)) by (nonlinear_arith)
        requires
            pow2(150) == 2 * u,
            pow2(149) == u,
            u > 0,
    ;
    lemma_times_near_signed(x, f, 150);
    lemma_times_in_unit(x, f);
    lemma_times_close(x, f);
    let e = u * p.value() - xv * fv;
    assert(u * u == 0x100_0000 * (u * w)) by (nonlinear_arith)
        requires
            u == 0x100_0000 * w,
    ;
    assert(u <= u * w) by (nonlinear_arith)
        requires
            u > 0,
            w >= 1,
    ;
    assert(0x100_0000 * size(e) <= u * u + 0x80_0000 * u);
    assert(u * (2 * w) == 2 * (u * w)) by (nonlinear_arith);
}

/// Two numbers from zero to one, each with a weight from zero to one, added up
/// as it is computed.
pub proof fn lemma_weighed_sum(x: Single, f: Single, y: Single, g: Single)
    requires
        proper(x),
        proper(f),
        proper(y),
        proper(g),
    ensures
        ({
            let s = x.times_spec(f).plus_spec(y.times_spec(g));
            &&& s.finite()
            &&& 0 <= s.value() <= 2 * pow2(149)
            &&& size(pow2(149) * s.value() - (x.value() * f.value() + y.value() * g.value()))
                <= pow2(149) * pow2(128)
        }),
{
    let u = pow2(149) as int;
    let w = pow2(126) as int;
    let (a, b) = (x.times_spec(f), y.times_spec(g));
    let s = a.plus_spec(b);
    lemma_one();
    lemma_proper_product(x, f);
    lemma_proper_product(y, g);
    lemma_pow2_unfold(127);
    lemma_pow2_unfold(128);
    lemma_pow2_unfold(150);
    lemma_pow2_unfold(151);
    lemma_pow2_pos(126);
    lemma_plus_near(a, b, 151);
    lemma_plus_value(a, b);
    lemma_rounded_monotone(0, a.value() + b.value());
    lemma_rounded_exact(Single { bits: 0 });
    lemma_nearest_exact((1 * pow2(150)) * 1, 1, 1, 150);
    assert(rounded(pow2(150) as int) == pow2(150));
    lemma_rounded_monotone(a.value() + b.value(), pow2(150) as int);
    let e = s.value() - (a.value() + b.value());
    assert(-w <= e <= w);
    assert(u * s.value() == u * a.value() + u * b.value() + u * e) by (nonlinear_arith)
        requires
            e == s.value() - (a.value() + b.value()),
    ;
    assert(-(u * w) <= u * e <= u * w) by (nonlinear_arith)
        requires
            -w <= e <= w,
            u > 0,
    ;
    assert(u * (4 * w) == 4 * (u * w)) by (nonlinear_arith);
}

/// What is left of one after a number from zero to one, as it is computed.
pub proof fn lemma_rest(f: Single)
    requires
        proper(f),
    ensures
        proper((Single { bits: ONE }).minus_spec(f)),
        size((Single { bits: ONE }).minus_spec(f).value() - (pow2(149) - f.value())) <= pow2(125),
        f.value() == 0 ==> (Single { bits: ONE }).minus_spec(f) == (Single { bits: ONE }),
        f.value() == pow2(149) ==> (Single { bits: ONE }).minus_spec(f).value() == 0,
{
    let one = Single { bits: ONE };
    lemma_one();
    lemma_pow2_unfold(150);
    lemma_pow2_unfold(126);
    lemma_negate(f);
    lemma_plus_near(one, f.negate_spec(), 150);
    lemma_plus_value(one, f.negate_spec());
    lemma_rest_in_unit(f);
    lemma_rounded_exact(one);
    lemma_rounded_exact(Single { bits: 0 });
    let r = one.minus_spec(f);
    if f.value() == 0 {
        lemma_same_value(r, one);
    }
}

/// Numbers above zero with the same value are the same.
pub proof fn lemma_same_value(a: Single, b: Single)
    requires
        !a.nan(),
        !b.nan(),
        a.value() == b.value(),
        a.value() > 0,
    ensures
        a == b,
{
    if a.mag() < b.mag() {
        lemma_magnitude_increases(a.mag(), b.mag(), 24);
    }
    if b.mag() < a.mag() {
        lemma_magnitude_increases(b.mag(), a.mag(), 24);
    }
}

} // verus!
