//! That mixing pigments over and over never leads out of range.
//!
//! The powers of a geometric mean are approximate, so that a reflectance may
//! drift a little with every pigment that is mixed in.  Near 1.125 * 2^120 the
//! approximate logarithm and power together fall short by more than rounding
//! can make up, and what is below that stays below.
//!
//! Values are given in steps of 2^-24.
use crate::dab::lemma_within_finite;
use crate::means::lemma_same_value;
use crate::range::{
    lemma_finite_or_infinite, lemma_known, lemma_nearest_at_most, lemma_nearest_near, lemma_negate,
    lemma_no_units, lemma_one, lemma_over_near, lemma_plus_at_least, lemma_plus_near,
    lemma_plus_value, lemma_rest_in_unit, lemma_rounded_exact, lemma_rounded_monotone,
    lemma_share_order, lemma_times_near, rounded,
};
use crate::rounding::lemma_magnitude_increases;
use crate::single::{
    law_times_commutes, law_times_nothing, law_times_one, lemma_nearest_exact, lemma_of_exact,
    Single, HALF, ONE,
};
use crate::spectral::{
    blended, channel, eased, fastlog2_spec, fastpow2_spec, fastpow_spec, seen, spectrum, weighed,
    SPECTRAL_B, SPECTRAL_G, SPECTRAL_R, TO_BLUE, TO_GREEN, TO_RED, WGM_EPSILON,
};
use vstd::arithmetic::power2::*;
use vstd::prelude::*;

verus! {

/// A step of 2^-24 in units of 2^-149.
pub open spec fn step() -> int {
    pow2(125) as int
}

/// Powers of two in steps.
pub proof fn lemma_steps()
    ensures
        step() > 0,
        pow2(125) == step(),
        pow2(126) == 2 * step(),
        pow2(127) == 4 * step(),
        pow2(132) == 0x80 * step(),
        pow2(133) == 0x100 * step(),
        pow2(149) == 0x100_0000 * step(),
        pow2(150) == 0x200_0000 * step(),
        pow2(151) == 0x400_0000 * step(),
        pow2(152) == 0x800_0000 * step(),
        pow2(156) == 0x8000_0000 * step(),
        pow2(157) == 0x1_0000_0000 * step(),
        pow2(180) == 0x80_0000_0000_0000 * step(),
{
    lemma_pow2_pos(125);
    assert(pow2(1) == 2 && pow2(2) == 4 && pow2(7) == 0x80 && pow2(8) == 0x100 && pow2(24)
        == 0x100_0000 && pow2(25) == 0x200_0000 && pow2(26) == 0x400_0000 && pow2(27)
        == 0x800_0000 && pow2(31) == 0x8000_0000 && pow2(32) == 0x1_0000_0000) by {
        lemma2_to64();
    }
    assert(pow2(55) == 0x80_0000_0000_0000) by {
        lemma2_to64_rest();
    }
    lemma_pow2_adds(1, 125);
    lemma_pow2_adds(2, 125);
    lemma_pow2_adds(7, 125);
    lemma_pow2_adds(8, 125);
    lemma_pow2_adds(24, 125);
    lemma_pow2_adds(25, 125);
    lemma_pow2_adds(26, 125);
    lemma_pow2_adds(27, 125);
    lemma_pow2_adds(31, 125);
    lemma_pow2_adds(32, 125);
    lemma_pow2_adds(55, 125);
}

/// The pattern of a number, as a number, divided by 2^23.
pub proof fn lemma_pattern(bits: u32)
    requires
        bits < 0x7f80_0000,
    ensures
        ({
            let y = Single::from_u32_spec(bits).times_spec(Single { bits: 0x3400_0000 });
            &&& y.finite()
            &&& y.value() >= 0
            &&& y.value() <= (2 * bits + 256) * step()
            &&& (2 * bits - 256) * step() <= y.value()
        }),
{
    let w = step();
    let n = Single::from_u32_spec(bits);
    let part = Single { bits: 0x3400_0000 };
    lemma_steps();
    lemma_one();
    lemma_known(0x3400_0000, 0x80_0000, 103);
    assert(part.value() == 2 * w) by {
        lemma_pow2_adds(23, 103);
        assert(pow2(23) == 0x80_0000) by {
            lemma2_to64();
        }
    }
    lemma_of_near(bits);
    assert(0 <= n.value() * part.value() < pow2(157) * pow2(149)) by (nonlinear_arith)
        requires
            0 <= n.value() <= (bits + 64) * (0x100_0000 * w),
            part.value() == 2 * w,
            bits < 0x7f80_0000,
            pow2(157) == 0x1_0000_0000 * w,
            pow2(149) == 0x100_0000 * w,
            w > 0,
    ;
    lemma_times_near(n, part, 157);
    let y = n.times_spec(part);
    let v = y.value();
    let k = n.value();
    assert(0x100_0000 * v <= 2 * k + 0x8000_0000 * w) by (nonlinear_arith)
        requires
            2 * (v * (0x100_0000 * w)) <= 2 * (k * (2 * w)) + (0x100_0000 * w) * (0x100 * w),
            w > 0,
    ;
    assert(2 * k <= 0x100_0000 * v + 0x8000_0000 * w) by (nonlinear_arith)
        requires
            2 * (k * (2 * w)) <= 2 * (v * (0x100_0000 * w)) + (0x100_0000 * w) * (0x100 * w),
            w > 0,
    ;
    assert((bits - 64) * (0x100_0000 * w) == 0x100_0000 * (bits * w) - 0x4000_0000 * w && (bits
        + 64) * (0x100_0000 * w) == 0x100_0000 * (bits * w) + 0x4000_0000 * w) by (nonlinear_arith);
    assert((2 * bits + 256) * w == 2 * (bits * w) + 256 * w && (2 * bits - 256) * w == 2 * (bits
        * w) - 256 * w) by (nonlinear_arith);
}

/// An integer of 31 bits as a number.
proof fn lemma_of_near(bits: u32)
    requires
        bits < 0x8000_0000,
    ensures
        ({
            let n = Single::from_u32_spec(bits);
            &&& n.finite()
            &&& 0 <= n.value()
            &&& (bits - 64) * (0x100_0000 * step()) <= n.value()
            &&& n.value() <= (bits + 64) * (0x100_0000 * step())
        }),
{
    let w = step();
    lemma_steps();
    let v = bits * pow2(149);
    assert(0 <= v < pow2(180) * 1) by (nonlinear_arith)
        requires
            v == bits * pow2(149),
            bits < 0x8000_0000,
            pow2(149) == 0x100_0000 * w,
            pow2(180) == 0x80_0000_0000_0000 * w,
            w > 0,
    ;
    reveal(Single::of);
    lemma_nearest_near(v as nat, 1, 180);
    lemma_pow2_adds(7, 149);
    assert(pow2(7) == 128) by {
        lemma2_to64();
    }
    let n = Single::from_u32_spec(bits);
    assert(2 * n.value() <= 2 * v + pow2(156) && 2 * v <= 2 * n.value() + pow2(156));
    assert((bits - 64) * pow2(149) == v - 64 * pow2(149) && (bits + 64) * pow2(149) == v + 64
        * pow2(149)) by (nonlinear_arith)
        requires
            v == bits * pow2(149),
    ;
}

/// The parts of the approximate logarithm: a multiple and a quotient of the
/// significand `m`.
proof fn lemma_significand(m: int)
    requires
        0x80_0000 <= m < 0x100_0000,
    ensures
        ({
            let w = step();
            let mx = Single { bits: (m + 0x3e80_0000) as u32 };
            let t = (Single { bits: 0x3fbf_bf75 }).times_spec(mx);
            let u = (Single { bits: 0x3eb4_44f8 }).plus_spec(mx);
            let q = (Single { bits: 0x3fdc_e9a3 }).over_spec(u);
            &&& t.finite() && 0 <= t.value() <= 0x200_0000 * w
            &&& 0x100_0000 * t.value() >= (25132778 * m - 0x100_0000) * w
            &&& q.finite() && 0 <= q.value() <= 0x300_0000 * w
            &&& 0 < u.value() <= (5907069 + m) * w
            &&& (q.value() + 2 * w) * u.value() >= (28955462 * w) * (0x100_0000 * w)
        }),
{
    let w = step();
    let mx = Single { bits: (m + 0x3e80_0000) as u32 };
    let c2 = Single { bits: 0x3fbf_bf75 };
    let c3 = Single { bits: 0x3fdc_e9a3 };
    let c4 = Single { bits: 0x3eb4_44f8 };
    let t = c2.times_spec(mx);
    let u = c4.plus_spec(mx);
    let q = c3.over_spec(u);
    lemma_steps();
    lemma_one();
    lemma_known((m + 0x3e80_0000) as u32, m as nat, 125);
    lemma_known(0x3fbf_bf75, 0xbf_bf75, 126);
    lemma_known(0x3fdc_e9a3, 0xdc_e9a3, 126);
    lemma_known(0x3eb4_44f8, 0xb4_44f8, 124);
    lemma_pow2_unfold(125);
    assert(c2.value() == 25132778 * w);
    assert(c3.value() == 28955462 * w);
    assert(c4.value() == 5907068 * w);
    assert(mx.value() == m * w);
    // The multiple.
    assert(c2.value() * mx.value() < pow2(150) * pow2(149)) by (nonlinear_arith)
        requires
            c2.value() == 25132778 * w,
            mx.value() == m * w,
            0 <= m < 0x100_0000,
            pow2(150) == 0x200_0000 * w,
            pow2(149) == 0x100_0000 * w,
            w > 0,
    ;
    assert(mx.value() >= 0) by (nonlinear_arith)
        requires
            mx.value() == m * w,
            m >= 0,
            w > 0,
    ;
    assert(m * w < 0x100_0000 * w) by (nonlinear_arith)
        requires
            m < 0x100_0000,
            w > 0,
    ;
    assert(m * w >= 0x80_0000 * w) by (nonlinear_arith)
        requires
            m >= 0x80_0000,
            w > 0,
    ;
    lemma_times_near(c2, mx, 150);
    lemma_plus_near(c4, mx, 150);
    assert(0x100_0000 * t.value() >= (25132778 * m - 0x100_0000) * w && t.value() <= 0x200_0000
        * w) by (nonlinear_arith)
        requires
            2 * ((25132778 * w) * (m * w)) <= 2 * (t.value() * (0x100_0000 * w)) + (0x100_0000 * w)
                * (2 * w),
            2 * (t.value() * (0x100_0000 * w)) <= 2 * ((25132778 * w) * (m * w)) + (0x100_0000 * w)
                * (2 * w),
            m < 0x100_0000,
            w > 0,
    ;
    // The quotient.
    assert((5907069 + m) * w == 5907068 * w + m * w + w) by (nonlinear_arith);
    assert(0xd0_0000 * w <= u.value() <= (5907069 + m) * w);
    assert(c3.value() * pow2(149) < pow2(151) * u.value()) by (nonlinear_arith)
        requires
            c3.value() == 28955462 * w,
            pow2(149) == 0x100_0000 * w,
            pow2(151) == 0x400_0000 * w,
            u.value() >= 0xd0_0000 * w,
            w > 0,
    ;
    lemma_over_near(c3, u, 151);
    assert((q.value() + 2 * w) * u.value() >= (28955462 * w) * (0x100_0000 * w))
        by (nonlinear_arith)
        requires
            2 * ((28955462 * w) * (0x100_0000 * w)) <= 2 * (q.value() * u.value()) + u.value() * (4
                * w),
    ;
    assert(q.value() <= 0x300_0000 * w) by (nonlinear_arith)
        requires
            2 * (q.value() * u.value()) <= 2 * ((28955462 * w) * (0x100_0000 * w)) + u.value() * (4
                * w),
            u.value() >= 0xd0_0000 * w,
            w > 0,
    ;
}

/// The tangent of a hyperbola lies below it.
proof fn lemma_tangent(q: int, u: int, w: int, a: int, b: int)
    requires
        w > 0,
        u > 0,
        b > 0,
        a > 0,
        q * u >= (28955462 * w) * (0x100_0000 * w),
        a * a <= 4 * b * 28955462,
    ensures
        0x100_0000 * q >= 0x100_0000 * a * w - b * u,
{
    let v = 0x100_0000 * w;
    let x = a * v - b * u;
    // x u is greatest where b u is one half of a v.
    assert(4 * b * (x * u) == (a * v) * (a * v) - (a * v - 2 * b * u) * (a * v - 2 * b * u))
        by (nonlinear_arith)
        requires
            x == a * v - b * u,
    ;
    assert((a * v - 2 * b * u) * (a * v - 2 * b * u) >= 0) by (nonlinear_arith);
    assert((a * v) * (a * v) <= 4 * b * 28955462 * (v * v)) by (nonlinear_arith)
        requires
            a * a <= 4 * b * 28955462,
    ;
    assert(x * u <= 28955462 * (v * v)) by (nonlinear_arith)
        requires
            4 * b * (x * u) <= 4 * b * 28955462 * (v * v),
            b > 0,
    ;
    assert(0x100_0000 * (q * u) >= 28955462 * (v * v)) by (nonlinear_arith)
        requires
            q * u >= (28955462 * w) * (0x100_0000 * w),
            v == 0x100_0000 * w,
    ;
    assert(0x100_0000 * q >= x) by (nonlinear_arith)
        requires
            x * u <= 0x100_0000 * (q * u),
            u > 0,
    ;
    assert(0x100_0000 * a * w == a * v) by (nonlinear_arith)
        requires
            v == 0x100_0000 * w,
    ;
}

/// The approximate logarithm of a number lies below a line over its pattern,
/// for every tangent of its quotient.
proof fn lemma_log(x: Single, m: int, a: int, b: int)
    requires
        x.bits < 0x7f80_0000,
        m == x.bits % 0x80_0000 + 0x80_0000,
        b > 0,
        a > 0,
        a * a <= 4 * b * 28955462,
    ensures
        ({
            let w = step();
            let r = fastlog2_spec(x);
            &&& r.finite()
            &&& -0x1_0000_0000 * w < r.value()
            &&& 0x100_0000 * r.value() <= 0x100_0000 * ((2 * x.bits - 2084158336 + 644 - a) * w) - (
            25132778 * m) * w + (b * (5907069 + m)) * w
        }),
{
    let w = step();
    let bits = x.bits;
    let y = Single::from_u32_spec(bits).times_spec(Single { bits: 0x3400_0000 });
    let c1 = Single { bits: 0x42f8_7377 };
    let mx = Single { bits: (bits % 0x80_0000 + 0x3f00_0000) as u32 };
    assert(mx == (Single { bits: (m + 0x3e80_0000) as u32 }));
    let t = (Single { bits: 0x3fbf_bf75 }).times_spec(mx);
    let u = (Single { bits: 0x3eb4_44f8 }).plus_spec(mx);
    let q = (Single { bits: 0x3fdc_e9a3 }).over_spec(u);
    lemma_steps();
    lemma_pattern(bits);
    lemma_significand(m);
    lemma_known(0x42f8_7377, 0xf8_7377, 132);
    assert(c1.value() == 2084158336 * w);
    assert((2 * bits + 256) * w <= 0xff00_0200 * w) by (nonlinear_arith)
        requires
            bits < 0x7f80_0000,
            w > 0,
    ;
    lemma_negate(c1);
    lemma_negate(t);
    lemma_negate(q);
    lemma_plus_near(y, c1.negate_spec(), 157);
    let r1 = y.minus_spec(c1);
    lemma_plus_near(r1, t.negate_spec(), 157);
    let r2 = r1.minus_spec(t);
    lemma_plus_near(r2, q.negate_spec(), 157);
    let r = r2.minus_spec(q);
    assert(r == fastlog2_spec(x));
    assert(r.value() <= (2 * bits + 256) * w - 2084158336 * w - t.value() - q.value() + 384 * w);
    lemma_tangent(q.value() + 2 * w, u.value(), w, a, b);
    assert(b * u.value() <= (b * (5907069 + m)) * w) by (nonlinear_arith)
        requires
            u.value() <= (5907069 + m) * w,
            b > 0,
    ;
    assert((25132778 * m - 0x100_0000) * w == (25132778 * m) * w - 0x100_0000 * w)
        by (nonlinear_arith);
    assert((2 * bits - 2084158336 + 644 - a) * w == (2 * bits + 256) * w - 2084158336 * w + 384 * w
        + 4 * w - a * w) by (nonlinear_arith);
    assert(0x100_0000 * a * w == 0x100_0000 * (a * w)) by (nonlinear_arith);
}

/// The approximate logarithm exceeds what its pattern shows by less than 0.0862.
pub proof fn lemma_log_at_most(x: Single)
    requires
        x.bits < 0x7f80_0000,
    ensures
        fastlog2_spec(x).finite(),
        -0x1_0000_0000 * step() < fastlog2_spec(x).value() <= (2 * x.bits - 2129261709) * step(),
{
    let w = step();
    let m = (x.bits % 0x80_0000 + 0x80_0000) as int;
    let r = fastlog2_spec(x).value();
    lemma_steps();
    lemma_log(x, m, 53952986, 25132778);
    let n = 2 * x.bits - 2084158336 + 644 - 53952986;
    assert(0x100_0000 * r <= (0x100_0000 * n + 25132778 * 5907069) * w) by (nonlinear_arith)
        requires
            0x100_0000 * r <= 0x100_0000 * (n * w) - (25132778 * m) * w + (25132778 * (5907069 + m))
                * w,
    ;
    assert((0x100_0000 * n + 25132778 * 5907069) * w <= 0x100_0000 * ((2 * x.bits - 2129261709)
        * w)) by (nonlinear_arith)
        requires
            0x100_0000 * n + 25132778 * 5907069 <= 0x100_0000 * (2 * x.bits - 2129261709),
            w > 0,
    ;
}

/// The pattern of the bound: 1.125 * 2^120.
pub const BOUND: u32 = 0x7b90_0000;

/// What the approximate logarithm of the bound is at most, in steps.
pub open spec fn bound_log() -> int {
    2016115082
}

proof fn lemma_log_below(x: Single)
    requires
        x.bits <= BOUND,
    ensures
        fastlog2_spec(x).finite(),
        -0x1_0000_0000 * step() < fastlog2_spec(x).value() <= bound_log() * step(),
{
    let w = step();
    let r = fastlog2_spec(x).value();
    lemma_steps();
    if x.bits < 0x7b80_0000 {
        lemma_log_at_most(x);
        assert((2 * x.bits - 2129261709) * w <= bound_log() * w) by (nonlinear_arith)
            requires
                x.bits < 0x7b80_0000,
                bound_log() == 2016115082,
                w > 0,
        ;
    } else {
        let k = x.bits - 0x7b80_0000;
        let m = (x.bits % 0x80_0000 + 0x80_0000) as int;
        assert(m == k + 0x80_0000);
        lemma_log(x, m, 63319090, 34616156);
        let n = 2 * x.bits - 2084158336 + 644 - 63319090;
        assert(0x100_0000 * r <= (0x100_0000 * n - 25132778 * m + 34616156 * (5907069 + m)) * w)
            by (nonlinear_arith)
            requires
                0x100_0000 * r <= 0x100_0000 * (n * w) - (25132778 * m) * w + (34616156 * (5907069
                    + m)) * w,
        ;
        assert((0x100_0000 * n - 25132778 * m + 34616156 * (5907069 + m)) * w <= 0x100_0000 * (
        bound_log() * w)) by (nonlinear_arith)
            requires
                0x100_0000 * n - 25132778 * m + 34616156 * (5907069 + m) <= 0x100_0000
                    * bound_log(),
                w > 0,
        ;
    }
}

/// A small integer as a number.
proof fn lemma_of_small(n: int)
    requires
        -0x100_0000 < n < 0x100_0000,
    ensures
        Single::of(n).finite(),
        Single::of(n).value() == n * pow2(149),
{
    if n >= 0 {
        lemma_of_exact(n as nat);
    } else {
        let k = (-n) as nat;
        reveal(Single::of);
        assert((k * pow2(149)) * 1 == k * pow2(149));
        lemma_nearest_exact(k * pow2(149), 1, k, 149);
        assert(-n * pow2(149) == k * pow2(149));
        assert(n * pow2(149) == -(k * pow2(149))) by (nonlinear_arith)
            requires
                k == -n,
        ;
    }
}

/// The part of an exponent behind the point, from below.
pub open spec fn part_of(c: Single, offset: Single) -> Single {
    c.minus_spec(Single::from_i32_spec(c.to_i32_spec())).plus_spec(offset)
}

/// It is between zero and one, and what it should be but for a step.
pub proof fn lemma_part(c: Single, offset: Single)
    requires
        c.finite(),
        -126 * pow2(149) <= c.value() < 121 * pow2(149),
        offset == (if c.value() < 0 {
            Single { bits: ONE }
        } else {
            Single { bits: 0 }
        }),
    ensures
        part_of(c, offset).finite(),
        0 <= part_of(c, offset).value() <= pow2(149),
        c.value() >= 120 * pow2(149) ==> part_of(c, offset).value() >= c.value() - 120 * pow2(149)
            - step() && part_of(c, offset).value() <= c.value() - 120 * pow2(149) + step(),
{
    let u = pow2(149) as int;
    let one = Single { bits: ONE };
    let zero = Single { bits: 0 };
    lemma_steps();
    lemma_one();
    let n = c.truncated();
    let a = c.units() as int;
    vstd::arithmetic::div_mod::lemma_fundamental_div_mod(a, u);
    let k = a / u;
    assert(0 <= k <= 126) by (nonlinear_arith)
        requires
            a == u * k + a % u,
            0 <= a % u < u,
            0 <= a <= 126 * u,
    ;
    assert(c.to_i32_spec() == n);
    lemma_of_small(n);
    let whole = Single::of(n);
    assert(u * k == k * u && (-k) * u == -(k * u)) by (nonlinear_arith);
    let v = c.value() - n * u;
    assert(c.value() >= 0 ==> 0 <= v < u);
    assert(c.value() < 0 ==> -u < v <= 0);
    lemma_negate(whole);
    let d = c.minus_spec(whole);
    lemma_plus_near(c, whole.negate_spec(), 149);
    lemma_plus_value(c, whole.negate_spec());
    assert(d.value() == rounded(v));
    lemma_rounded_exact(one);
    lemma_rounded_exact(zero);
    lemma_negate(one);
    lemma_rounded_exact(one.negate_spec());
    if v >= 0 {
        lemma_rounded_monotone(0, v);
        lemma_rounded_monotone(v, u);
    } else {
        lemma_rounded_monotone(v, 0);
        lemma_rounded_monotone(-u, v);
    }
    let e = d.value() + offset.value();
    assert(0 <= e <= u);
    let z = d.plus_spec(offset);
    lemma_plus_near(d, offset, 150);
    lemma_plus_value(d, offset);
    lemma_rounded_monotone(0, e);
    lemma_rounded_monotone(e, u);
    if c.value() >= 120 * u {
        assert(k == 120) by (nonlinear_arith)
            requires
                a == u * k + a % u,
                0 <= a % u < u,
                120 * u <= a < 121 * u,
        ;
        lemma_rounded_exact(d);
    }
}

/// A product of a rising and a falling line is at least what it is at both
/// ends.
pub proof fn lemma_rising_and_falling(a: int, b: int, d: int, t: int, z: int, k: int)
    requires
        0 <= z <= t,
        0 < t,
        b >= 0,
        a * d >= k,
        (a + b * t) * (d - t) >= k,
    ensures
        (a + b * z) * (d - z) >= k,
{
    let f = (a + b * z) * (d - z) - k;
    let f0 = a * d - k;
    let f1 = (a + b * t) * (d - t) - k;
    let s = b * d - a;
    assert(f == f0 + z * s - b * (z * z)) by (nonlinear_arith)
        requires
            f == (a + b * z) * (d - z) - k,
            f0 == a * d - k,
            s == b * d - a,
    ;
    assert(f1 == f0 + t * s - b * (t * t)) by (nonlinear_arith)
        requires
            f1 == (a + b * t) * (d - t) - k,
            f0 == a * d - k,
            s == b * d - a,
    ;
    assert(t * f == (t - z) * f0 + z * f1 + b * (z * (t - z)) * t) by (nonlinear_arith)
        requires
            f == f0 + z * s - b * (z * z),
            f1 == f0 + t * s - b * (t * t),
    ;
    assert((t - z) * f0 >= 0) by (nonlinear_arith)
        requires
            t - z >= 0,
            f0 >= 0,
    ;
    assert(z * f1 >= 0) by (nonlinear_arith)
        requires
            z >= 0,
            f1 >= 0,
    ;
    assert(b * (z * (t - z)) * t >= 0) by (nonlinear_arith)
        requires
            z >= 0,
            t - z >= 0,
            b >= 0,
            t > 0,
    ;
    assert(f >= 0) by (nonlinear_arith)
        requires
            t * f >= 0,
            t > 0,
    ;
}

/// Whether the quotient of the approximate power lies below the chord from
/// `a` with the slope `b`, up to `t`, in steps.
pub open spec fn chord(a: int, b: int, t: int) -> bool {
    &&& 0 < t <= 0x100_0000
    &&& a > 0
    &&& b >= 0
    &&& a * 81244092 >= 465199008 * 0x100_0000
    &&& (0x100_0000 * a + b * t) * (81244092 - t) >= 465199008 * 0x1_0000_0000_0000
}

/// The quotient of the approximate power.
proof fn lemma_power_quotient(z: Single, a: int, b: int, t: int)
    requires
        z.finite(),
        0 <= z.value() <= t * step(),
        chord(a, b, t),
    ensures
        ({
            let w = step();
            let r = (Single { bits: 0x41dd_d2fd }).over_spec(
                (Single { bits: 0x409a_f5f8 }).minus_spec(z),
            );
            &&& r.finite()
            &&& 0 <= r.value() <= 0x800_0000 * w
            &&& 0x100_0000 * r.value() <= 0x100_0000 * ((a + 4) * w) + b * z.value()
        }),
{
    let w = step();
    let v = z.value();
    let d2 = Single { bits: 0x41dd_d2fd };
    let d3 = Single { bits: 0x409a_f5f8 };
    lemma_steps();
    lemma_known(0x41dd_d2fd, 0xdd_d2fd, 130);
    lemma_known(0x409a_f5f8, 0x9a_f5f8, 128);
    lemma_pow2_unfold(128);
    lemma_pow2_unfold(129);
    lemma_pow2_unfold(130);
    assert(d2.value() == 465199008 * w);
    assert(d3.value() == 81244096 * w);
    assert(t * w <= 0x100_0000 * w) by (nonlinear_arith)
        requires
            t <= 0x100_0000,
            w > 0,
    ;
    lemma_negate(z);
    lemma_plus_near(d3, z.negate_spec(), 152);
    let d = d3.minus_spec(z);
    let low = 81244092 * w - v;
    assert(d.value() >= low && low >= 64466876 * w);
    assert(d2.value() * pow2(149) < pow2(152) * d.value()) by (nonlinear_arith)
        requires
            d2.value() == 465199008 * w,
            pow2(149) == 0x100_0000 * w,
            pow2(152) == 0x800_0000 * w,
            d.value() >= 64466876 * w,
            w > 0,
    ;
    lemma_over_near(d2, d, 152);
    let r = d2.over_spec(d);
    let q = r.value() - 4 * w;
    assert(q * d.value() <= (465199008 * w) * (0x100_0000 * w)) by (nonlinear_arith)
        requires
            2 * (r.value() * d.value()) <= 2 * ((465199008 * w) * (0x100_0000 * w)) + d.value() * (8
                * w),
            q == r.value() - 4 * w,
    ;
    assert(r.value() <= 0x800_0000 * w) by (nonlinear_arith)
        requires
            q * d.value() <= (465199008 * w) * (0x100_0000 * w),
            d.value() >= 64466876 * w,
            q == r.value() - 4 * w,
            w > 0,
    ;
    // The chord is above.
    let ca = 0x100_0000 * a * w;
    let k = 465199008 * 0x1_0000_0000_0000 * (w * w);
    assert(ca * (81244092 * w) >= k) by (nonlinear_arith)
        requires
            a * 81244092 >= 465199008 * 0x100_0000,
            ca == 0x100_0000 * a * w,
            k == 465199008 * 0x1_0000_0000_0000 * (w * w),
    ;
    assert((ca + b * (t * w)) * (81244092 * w - t * w) >= k) by (nonlinear_arith)
        requires
            (0x100_0000 * a + b * t) * (81244092 - t) >= 465199008 * 0x1_0000_0000_0000,
            ca == 0x100_0000 * a * w,
            k == 465199008 * 0x1_0000_0000_0000 * (w * w),
    ;
    assert(t * w > 0) by (nonlinear_arith)
        requires
            t > 0,
            w > 0,
    ;
    lemma_rising_and_falling(ca, b, 81244092 * w, t * w, v, k);
    let line = ca + b * v;
    assert(line >= 0) by (nonlinear_arith)
        requires
            line == 0x100_0000 * a * w + b * v,
            a > 0,
            w > 0,
            b >= 0,
            v >= 0,
    ;
    assert(line * d.value() >= line * low) by (nonlinear_arith)
        requires
            line >= 0,
            d.value() >= low,
    ;
    assert(0x100_0000 * q <= line) by (nonlinear_arith)
        requires
            line * d.value() >= k,
            q * d.value() <= (465199008 * w) * (0x100_0000 * w),
            k == 465199008 * 0x1_0000_0000_0000 * (w * w),
            d.value() >= 64466876 * w,
            w > 0,
    ;
    assert(0x100_0000 * ((a + 4) * w) == 0x100_0000 * a * w + 0x100_0000 * (4 * w))
        by (nonlinear_arith);
}

/// An exponent held from below.
pub open spec fn held(p: Single) -> Single {
    let floor = Single { bits: 0xc2fc_0000 };
    if p.lt_spec(floor) {
        floor
    } else {
        p
    }
}

pub proof fn lemma_held(p: Single)
    requires
        p.finite(),
        p.value() < 121 * pow2(149),
    ensures
        held(p).finite(),
        -126 * pow2(149) <= held(p).value() < 121 * pow2(149),
        held(p).value() >= p.value(),
        p.value() >= -126 * pow2(149) ==> held(p) == p,
        p.value() < -126 * pow2(149) ==> held(p).value() == -126 * pow2(149),
        held(p).value() < 0 <==> p.value() < 0,
{
    let floor = Single { bits: 0xc2fc_0000 };
    lemma_steps();
    lemma_known(0x42fc_0000, 0xfc_0000, 132);
    lemma_negate(Single { bits: 0x42fc_0000 });
    assert(floor == (Single { bits: 0x42fc_0000 }).negate_spec());
}

/// The sum that the pattern of an approximate power is made of.
pub open spec fn power_sum(c: Single, z: Single) -> Single {
    c.plus_spec(Single { bits: 0x42f2_8c51 }).plus_spec(
        (Single { bits: 0x41dd_d2fd }).over_spec((Single { bits: 0x409a_f5f8 }).minus_spec(z)),
    ).minus_spec((Single { bits: 0x3fbe_bc8d }).times_spec(z))
}

proof fn lemma_power_sum(c: Single, z: Single, a: int, b: int, t: int)
    requires
        c.finite(),
        -126 * pow2(149) <= c.value() < 121 * pow2(149),
        z.finite(),
        0 <= z.value() <= t * step(),
        chord(a, b, t),
    ensures
        ({
            let w = step();
            let s = power_sum(c, z);
            &&& s.finite()
            &&& s.value() < 0x1_0000_0000 * w
            &&& 0x100_0000 * s.value() <= 0x100_0000 * (c.value() + (2034641024 + a + 389) * w) + (b
                - 25000218) * z.value()
        }),
{
    let w = step();
    let v = z.value();
    let d1 = Single { bits: 0x42f2_8c51 };
    let d4 = Single { bits: 0x3fbe_bc8d };
    let r = (Single { bits: 0x41dd_d2fd }).over_spec((Single { bits: 0x409a_f5f8 }).minus_spec(z));
    let m = d4.times_spec(z);
    lemma_steps();
    lemma_power_quotient(z, a, b, t);
    lemma_known(0x42f2_8c51, 0xf2_8c51, 132);
    lemma_known(0x3fbe_bc8d, 0xbe_bc8d, 126);
    assert(d1.value() == 2034641024 * w);
    assert(d4.value() == 25000218 * w);
    assert(v <= 0x100_0000 * w) by (nonlinear_arith)
        requires
            v <= t * w,
            t <= 0x100_0000,
            w > 0,
    ;
    assert(d4.value() * v < pow2(150) * pow2(149)) by (nonlinear_arith)
        requires
            d4.value() == 25000218 * w,
            0 <= v <= 0x100_0000 * w,
            pow2(150) == 0x200_0000 * w,
            pow2(149) == 0x100_0000 * w,
            w > 0,
    ;
    lemma_times_near(d4, z, 150);
    let mv = m.value();
    assert(0x100_0000 * mv >= 25000218 * v - 0x100_0000 * w) by (nonlinear_arith)
        requires
            2 * ((25000218 * w) * v) <= 2 * (mv * (0x100_0000 * w)) + (0x100_0000 * w) * (2 * w),
            w > 0,
    ;
    assert(mv <= 0x200_0000 * w) by (nonlinear_arith)
        requires
            2 * (mv * (0x100_0000 * w)) <= 2 * ((25000218 * w) * v) + (0x100_0000 * w) * (2 * w),
            v <= 0x100_0000 * w,
            w > 0,
    ;
    lemma_plus_near(c, d1, 157);
    let s1 = c.plus_spec(d1);
    lemma_plus_near(s1, r, 157);
    let s2 = s1.plus_spec(r);
    lemma_negate(m);
    lemma_plus_near(s2, m.negate_spec(), 157);
    let s = s2.minus_spec(m);
    assert(s == power_sum(c, z));
    assert(s.value() <= c.value() + 2034641024 * w + r.value() - mv + 384 * w);
    assert((2034641024 + a + 389) * w == 2034641024 * w + (a + 4) * w + 385 * w)
        by (nonlinear_arith);
    assert((b - 25000218) * v == b * v - 25000218 * v) by (nonlinear_arith);
}

/// A sum as the pattern of a number.
proof fn lemma_to_pattern(s: Single)
    requires
        s.finite(),
        s.value() < 0x1_0000_0000 * step(),
    ensures
        ({
            let bits = (Single { bits: 0x4b00_0000 }).times_spec(s).to_u32_spec();
            bits == 0 || 2 * bits * step() <= s.value() + 128 * step()
        }),
{
    let w = step();
    let big = Single { bits: 0x4b00_0000 };
    let x = big.times_spec(s);
    let u = pow2(149) as int;
    lemma_steps();
    lemma_known(0x4b00_0000, 0x80_0000, 149);
    assert(big.value() == 0x80_0000 * u);
    if s.negative() {
        reveal(Single::times_spec);
        assert(x.nan() || x.negative());
        assert(x.truncated() <= 0);
    } else {
        let v = s.value();
        assert(v >= 0);
        assert(big.value() * v < pow2(180) * pow2(149)) by (nonlinear_arith)
            requires
                big.value() == 0x80_0000 * (0x100_0000 * w),
                0 <= v < 0x1_0000_0000 * w,
                pow2(180) == 0x80_0000_0000_0000 * w,
                pow2(149) == 0x100_0000 * w,
                w > 0,
        ;
        lemma_times_near(big, s, 180);
        let y = x.value();
        assert(y <= 0x80_0000 * v + 0x4000_0000 * w) by (nonlinear_arith)
            requires
                2 * (y * (0x100_0000 * w)) <= 2 * ((0x80_0000 * (0x100_0000 * w)) * v) + (0x100_0000
                    * w) * (0x8000_0000 * w),
                w > 0,
        ;
        vstd::arithmetic::div_mod::lemma_fundamental_div_mod(x.units() as int, u);
        let n = x.truncated();
        assert(n * u <= y) by {
            lemma_no_units(x);
            assert(x.units() == y);
            let q = x.units() as int / u;
            assert(u * q == q * u) by (nonlinear_arith);
            if x.negative() {
                assert(x.units() == 0);
                assert(q * u <= 0);
                assert((-q) * u == -(q * u)) by (nonlinear_arith);
                vstd::arithmetic::div_mod::lemma_basic_div(0, u);
            }
        }
        let bits = x.to_u32_spec();
        if bits > 0 {
            assert(n >= bits);
            assert(bits * u <= n * u) by (nonlinear_arith)
                requires
                    bits <= n,
                    u >= 0,
            ;
            assert(bits * u == 0x80_0000 * (2 * bits * w)) by (nonlinear_arith)
                requires
                    u == 0x100_0000 * w,
            ;
        }
    }
}

/// The pattern of an approximate power.
proof fn lemma_power(p: Single, a: int, b: int, t: int)
    requires
        p.finite(),
        p.value() < 121 * pow2(149),
        chord(a, b, t),
        ({
            let z = part_of(
                held(p),
                if p.lt_spec(Single { bits: 0 }) {
                    Single { bits: ONE }
                } else {
                    Single { bits: 0 }
                },
            );
            z.value() <= t * step()
        }),
    ensures
        ({
            let z = part_of(
                held(p),
                if p.lt_spec(Single { bits: 0 }) {
                    Single { bits: ONE }
                } else {
                    Single { bits: 0 }
                },
            );
            let bits = fastpow2_spec(p).bits;
            bits == 0 || 0x100_0000 * (2 * bits * step()) <= 0x100_0000 * (held(p).value() + (
            2034641024 + a + 517) * step()) + (b - 25000218) * z.value()
        }),
{
    let w = step();
    let offset = if p.lt_spec(Single { bits: 0 }) {
        Single { bits: ONE }
    } else {
        Single { bits: 0 }
    };
    let c = held(p);
    let z = part_of(c, offset);
    lemma_steps();
    lemma_one();
    lemma_held(p);
    lemma_part(c, offset);
    lemma_power_sum(c, z, a, b, t);
    let s = power_sum(c, z);
    lemma_to_pattern(s);
    assert(fastpow2_spec(p).bits == (Single { bits: 0x4b00_0000 }).times_spec(s).to_u32_spec());
    assert((2034641024 + a + 517) * w == (2034641024 + a + 389) * w + 128 * w) by (nonlinear_arith);
}

/// The pattern of an approximate power exceeds what it should be by less than
/// 426.
pub proof fn lemma_power_at_most(p: Single, n: int)
    requires
        p.finite(),
        p.value() < 121 * pow2(149),
        -2113929216 <= n,
        p.value() <= n * step(),
    ensures
        2 * fastpow2_spec(p).bits <= n + 2130707284,
{
    let w = step();
    let offset = if p.lt_spec(Single { bits: 0 }) {
        Single { bits: ONE }
    } else {
        Single { bits: 0 }
    };
    let z = part_of(held(p), offset);
    lemma_steps();
    lemma_one();
    lemma_held(p);
    lemma_part(held(p), offset);
    let bits = fastpow2_spec(p).bits;
    lemma_power(p, 96065376, 25000585, 0x100_0000);
    assert(-2113929216 * w <= n * w) by (nonlinear_arith)
        requires
            -2113929216 <= n,
            w > 0,
    ;
    assert(held(p).value() <= n * w);
    assert(0x100_0000 * (2 * bits * w) <= 0x100_0000 * (n * w + 2130706917 * w) + 367
        * z.value() || bits == 0);
    if bits > 0 {
        assert(2 * bits * w <= (n + 2130707284) * w) by {
            assert((n + 2130707284) * w == n * w + 2130707284 * w)
                by (nonlinear_arith);
        }
        assert(2 * bits <= n + 2130707284) by (nonlinear_arith)
            requires
                2 * bits * w <= (n + 2130707284) * w,
                w > 0,
        ;
    }
}

/// A closer bound where the power is near the bound.
proof fn lemma_power_near(p: Single, n: int)
    requires
        p.finite(),
        2013265920 * step() <= p.value() <= (2013265920 + n) * step(),
        n <= 2849348,
    ensures
        0x100_0000 * (2 * fastpow2_spec(p).bits) <= 0x100_0000 * 4143972838 + 12335897
            * n,
{
    let w = step();
    let zero = Single { bits: 0 };
    let z = part_of(held(p), zero);
    lemma_steps();
    lemma_one();
    assert((2013265920 + n) * w <= 2016115268 * w) by (nonlinear_arith)
        requires
            n <= 2849348,
            w > 0,
    ;
    lemma_held(p);
    lemma_part(p, zero);
    assert(held(p) == p);
    assert(p.value() >= 120 * pow2(149));
    assert(z.value() <= p.value() - 120 * pow2(149) + w);
    assert(z.value() <= 2849350 * w);
    lemma_power(p, 96065376, 20558899, 2849350);
    let bits = fastpow2_spec(p).bits;
    let x = p.value() - 2013265920 * w;
    let v = z.value();
    assert((20558899 - 25000218) * v == -(4441319 * v)) by (nonlinear_arith);
    assert((2034641024 + 96065376 + 517) * w == 2130706917 * w) by (nonlinear_arith);
    assert(v >= x - w);
    assert(x <= n * w) by (nonlinear_arith)
        requires
            x == p.value() - 2013265920 * w,
            p.value() <= (2013265920 + n) * w,
    ;
    assert(n >= 0) by (nonlinear_arith)
        requires
            0 <= x <= n * w,
            w > 0,
    ;
    if bits > 0 {
        assert(0x100_0000 * (2 * bits * w) <= 0x100_0000 * (4143972837 * w) + 4441319
            * w + 12335897 * x);
        assert(0x100_0000 * (2 * bits) <= 0x100_0000 * 4143972838 + 12335897 * n)
            by (nonlinear_arith)
            requires
                0x100_0000 * (2 * bits * w) <= 0x100_0000 * (4143972837 * w) + 4441319
                    * w + 12335897 * x,
                x <= n * w,
                w > 0,
        ;
    }
}

/// A share of a logarithm that is at most `top` steps.
proof fn lemma_shared_log(l: Single, f: Single, top: int)
    requires
        l.finite(),
        f.finite(),
        0 <= f.value() <= pow2(149),
        0 <= top < 121 * 0x100_0000,
        l.value() <= top * step(),
    ensures
        f.times_spec(l).finite(),
        0x100_0000 * f.times_spec(l).value() <= f.value() * top + 0x4000_0000 * step(),
{
    let w = step();
    let one = Single { bits: ONE };
    let p = f.times_spec(l);
    lemma_steps();
    lemma_one();
    assert(f.value() * top >= 0) by (nonlinear_arith)
        requires
            f.value() >= 0,
            top >= 0,
    ;
    if l.value() < 0 {
        lemma_share_order(l, f, one);
        law_times_one(l);
        law_times_commutes(l, f);
        lemma_within_finite(p, l);
    } else {
        assert(f.value() * l.value() < pow2(156) * pow2(149)) by (nonlinear_arith)
            requires
                0 <= f.value() <= 0x100_0000 * w,
                0 <= l.value() <= top * w,
                top < 121 * 0x100_0000,
                pow2(156) == 0x8000_0000 * w,
                pow2(149) == 0x100_0000 * w,
                w > 0,
        ;
        lemma_times_near(f, l, 156);
        let v = p.value();
        assert(f.value() * l.value() <= f.value() * (top * w)) by (nonlinear_arith)
            requires
                f.value() >= 0,
                l.value() <= top * w,
        ;
        assert(f.value() * (top * w) == (f.value() * top) * w) by (nonlinear_arith);
        assert(0x100_0000 * v <= f.value() * top + 0x4000_0000 * w) by (nonlinear_arith)
            requires
                2 * (v * (0x100_0000 * w)) <= 2 * ((f.value() * top) * w) + (0x100_0000 * w) * (0x80
                    * w),
                w > 0,
        ;
    }
}

/// A product of two numbers by bounds on their patterns.
proof fn lemma_product(x: Single, y: Single, ex: nat, mx: nat, ey: nat, my: nat)
    requires
        0x80_0000 <= mx < 0x100_0000,
        0x80_0000 <= my < 0x100_0000,
        ex < 250,
        ey < 250,
        x.bits <= ex * 0x80_0000 + mx,
        y.bits <= ey * 0x80_0000 + my,
        (ex + ey <= 372 && mx * my <= 0x90_0000 * 0x80_0000) || (ex + ey <= 371 && mx * my <= 2 * (
        0x90_0000 * 0x80_0000)),
    ensures
        x.times_spec(y).bits <= BOUND,
{
    let bx = (ex * 0x80_0000 + mx) as u32;
    let by = (ey * 0x80_0000 + my) as u32;
    lemma_known(bx, mx, ex);
    lemma_known(by, my, ey);
    lemma_known(BOUND, 0x90_0000, 246);
    if x.bits < bx {
        lemma_magnitude_increases(x.mag(), bx as nat, 24);
    }
    if y.bits < by {
        lemma_magnitude_increases(y.mag(), by as nat, 24);
    }
    let (px, py) = (pow2(ex), pow2(ey));
    let n = x.units() * y.units();
    lemma_pow2_adds(ex, ey);
    lemma_pow2_pos(ex);
    lemma_pow2_pos(ey);
    let p = pow2(ex + ey);
    assert(n <= (mx * my) * p) by (nonlinear_arith)
        requires
            n == x.units() * y.units(),
            0 <= x.units() <= mx * px,
            0 <= y.units() <= my * py,
            p == px * py,
    ;
    let top = pow2(372);
    lemma_pow2_unfold(372);
    if ex + ey < 371 {
        lemma_pow2_strictly_increases(ex + ey, 371);
    }
    assert((mx * my) * p <= (0x90_0000 * 0x80_0000) * top) by (nonlinear_arith)
        requires
            (p <= top && mx * my <= 0x90_0000 * 0x80_0000) || (2 * p <= top && mx * my <= 2 * (
            0x90_0000 * 0x80_0000)),
            p >= 0,
            mx >= 0,
            my >= 0,
    ;
    lemma_pow2_adds(246, 149);
    lemma_pow2_adds(23, 372);
    assert(pow2(23) == 0x80_0000) by {
        lemma2_to64();
    }
    assert((0x90_0000 * 0x80_0000) * top == (0x90_0000 * pow2(246)) * pow2(149)) by (nonlinear_arith)
        requires
            pow2(246) * pow2(149) == 0x80_0000 * top,
    ;
    lemma_pow2_pos(149);
    lemma_nearest_at_most(n, pow2(149), BOUND as nat);
    reveal(Single::times_spec);
}

/// A power of less than one pigment, for a share of `f` steps.
proof fn lemma_new_power(p: Single, f: int)
    requires
        p.finite(),
        0 <= f <= 0x100_0000,
        p.value() <= (20 * f + 84) * step(),
    ensures
        fastpow2_spec(p).bits <= 1065353684 + 10 * f,
{
    let w = step();
    lemma_steps();
    assert((20 * f + 84) * w < 2030043136 * w) by (nonlinear_arith)
        requires
            f <= 0x100_0000,
            w > 0,
    ;
    lemma_power_at_most(p, 20 * f + 84);
}

/// The product of two powers whose exponents are bounded, where the new share
/// is small.
proof fn lemma_small_share(p: Single, q: Single, f: int)
    requires
        p.finite(),
        q.finite(),
        0 <= f <= 65536,
        p.value() <= (20 * f + 84) * step(),
        q.value() <= (2016115268 - 120 * f) * step(),
    ensures
        fastpow2_spec(p).times_spec(fastpow2_spec(q)).bits <= BOUND,
{
    let w = step();
    let x = fastpow2_spec(p);
    let y = fastpow2_spec(q);
    lemma_steps();
    lemma_new_power(p, f);
    let mx = 8389076 + 10 * f;
    if 2013265920 * w <= q.value() {
        let n = 2849348 - 120 * f;
        assert(n >= 0) by (nonlinear_arith)
            requires
                2013265920 * w <= (2016115268 - 120 * f) * w,
                w > 0,
                n == 2849348 - 120 * f,
        ;
        assert(2013265920 + n == 2016115268 - 120 * f);
        lemma_power_near(q, n);
        let my = 9436381 - 44 * f;
        assert(y.bits <= 246 * 0x80_0000 + my);
        assert(mx * my <= 0x90_0000 * 0x80_0000) by (nonlinear_arith)
            requires
                mx == 8389076 + 10 * f,
                my == 9436381 - 44 * f,
                f >= 0,
        ;
        lemma_product(x, y, 126, mx as nat, 246, my as nat);
    } else {
        lemma_power_at_most(q, 2013265920);
        assert(mx * 8389034 <= 0x90_0000 * 0x80_0000);
        lemma_product(x, y, 126, mx as nat, 246, 8389034);
    }
}

/// The same where it is not so small.
proof fn lemma_medium_share(p: Single, q: Single, f: int)
    requires
        p.finite(),
        q.finite(),
        65536 <= f <= 335544,
        p.value() <= (20 * f + 84) * step(),
        q.value() <= (2016115268 - 120 * f) * step(),
    ensures
        fastpow2_spec(p).times_spec(fastpow2_spec(q)).bits <= BOUND,
{
    let w = step();
    let x = fastpow2_spec(p);
    let y = fastpow2_spec(q);
    lemma_steps();
    lemma_new_power(p, f);
    if f <= 131072 {
        assert((2016115268 - 120 * f) * w <= 2008250948 * w) by (nonlinear_arith)
            requires
                f >= 65536,
                w > 0,
        ;
        lemma_power_at_most(q, 2008250948);
        lemma_product(x, y, 126, 9699796, 245, 14270156);
    } else {
        assert((2016115268 - 120 * f) * w <= 2000386628 * w) by (nonlinear_arith)
            requires
                f >= 131072,
                w > 0,
        ;
        lemma_power_at_most(q, 2000386628);
        lemma_product(x, y, 126, 11744516, 245, 10337996);
    }
}

/// The same where it is large.
proof fn lemma_large_share(p: Single, q: Single, f: int)
    requires
        p.finite(),
        q.finite(),
        335544 < f <= 0x100_0000,
        p.value() <= (20 * f + 84) * step(),
        q.value() <= (2016115268 - 120 * f) * step(),
    ensures
        fastpow2_spec(p).times_spec(fastpow2_spec(q)).bits <= BOUND,
{
    let w = step();
    lemma_steps();
    let a = (20 * f + 84) / 0x100_0000 + 1;
    let b = (2016115268 - 120 * f) / 0x100_0000 + 1;
    assert((20 * f + 84) * w <= (0x100_0000 * a) * w) by (nonlinear_arith)
        requires
            20 * f + 84 <= 0x100_0000 * a,
            w > 0,
    ;
    assert((2016115268 - 120 * f) * w <= (0x100_0000 * b) * w) by (nonlinear_arith)
        requires
            2016115268 - 120 * f <= 0x100_0000 * b,
            w > 0,
    ;
    assert((20 * f + 84) * w < 2030043136 * w && (2016115268 - 120 * f) * w < 2030043136 * w)
        by (nonlinear_arith)
        requires
            335544 < f <= 0x100_0000,
            w > 0,
    ;
    lemma_power_at_most(p, 0x100_0000 * a);
    lemma_power_at_most(q, 0x100_0000 * b);
    lemma_product(
        fastpow2_spec(p),
        fastpow2_spec(q),
        (a + 126) as nat,
        8389034,
        (b + 126) as nat,
        8389034,
    );
}

/// Mixing a pigment of a reflectance of at most 2^19 into one that is within
/// the bound stays within the bound.
pub proof fn lemma_mixing_stays(s: Single, x: Single, share: Single)
    requires
        s.bits <= 0x4900_0000,
        x.bits <= BOUND,
        share.finite(),
        0 <= share.value() <= pow2(149),
    ensures
        fastpow_spec(s, share).times_spec(
            fastpow_spec(x, (Single { bits: ONE }).minus_spec(share)),
        ).bits <= BOUND,
{
    let w = step();
    let one = Single { bits: ONE };
    let rest = one.minus_spec(share);
    let v = share.value();
    lemma_steps();
    lemma_one();
    lemma_log_at_most(s);
    lemma_log_below(x);
    let ls = fastlog2_spec(s);
    let lx = fastlog2_spec(x);
    assert(ls.value() <= 335544320 * w) by (nonlinear_arith)
        requires
            ls.value() <= (2 * s.bits - 2129261709) * w,
            s.bits <= 0x4900_0000,
            w > 0,
    ;
    lemma_negate(share);
    lemma_plus_near(one, share.negate_spec(), 150);
    lemma_rest_in_unit(share);
    let u = rest.value();
    lemma_shared_log(ls, share, 335544320);
    lemma_shared_log(lx, rest, bound_log());
    let p = share.times_spec(ls);
    let q = rest.times_spec(lx);
    assert(u <= 0x100_0000 * w - v + w);
    assert(p.value() <= 20 * v + 64 * w);
    assert(u * 2016115082 <= (0x100_0000 * w - v + w) * 2016115082) by (nonlinear_arith)
        requires
            u <= 0x100_0000 * w - v + w,
    ;
    assert(q.value() <= 2016115267 * w - 120 * v);
    vstd::arithmetic::div_mod::lemma_fundamental_div_mod(v, w);
    let f = v / w;
    assert(w * f == f * w) by (nonlinear_arith);
    assert(0 <= f <= 0x100_0000) by (nonlinear_arith)
        requires
            v == w * f + v % w,
            0 <= v % w < w,
            0 <= v <= 0x100_0000 * w,
    ;
    assert((20 * f + 84) * w == 20 * (f * w) + 84 * w) by (nonlinear_arith);
    assert((2016115268 - 120 * f) * w == 2016115268 * w - 120 * (f * w)) by (nonlinear_arith);
    if f <= 65536 {
        lemma_small_share(p, q, f);
    } else if f <= 335544 {
        lemma_medium_share(p, q, f);
    } else {
        lemma_large_share(p, q, f);
    }
}

/// A number without a sign of at most 2^k units.
pub open spec fn within(v: Single, k: nat) -> bool {
    v.finite() && !v.negative() && v.value() <= pow2(k)
}

/// A share of a number.
pub proof fn lemma_within_times(a: Single, v: Single, k: nat)
    requires
        within(a, 149),
        within(v, k),
    ensures
        within(a.times_spec(v), k),
{
    let u = pow2(149);
    lemma_one();
    assert(a.units() * v.units() <= v.units() * u) by (nonlinear_arith)
        requires
            0 <= a.units() <= u,
            v.units() >= 0,
    ;
    lemma_nearest_at_most(a.units() * v.units(), u, v.mag());
    reveal(Single::times_spec);
}

/// A sum.
pub proof fn lemma_within_plus(a: Single, b: Single, k: nat)
    requires
        within(a, k),
        within(b, k),
        k <= 250,
    ensures
        within(a.plus_spec(b), k + 1),
{
    let s = a.plus_spec(b);
    let top = pow2(k + 1);
    lemma_pow2_unfold(k + 1);
    lemma_plus_value(a, b);
    lemma_nearest_exact((1 * top) * 1, 1, 1, k + 1);
    assert(rounded(top as int) == top);
    lemma_rounded_monotone(a.value() + b.value(), top as int);
    assert(!s.negative()) by {
        reveal(Single::plus_spec);
    }
    if !s.finite() {
        lemma_finite_or_infinite(s);
        lemma_pow2_strictly_increases(k + 1, 277);
    }
}

/// The reflectances of pure colours are at most one.
pub proof fn lemma_pure(i: int)
    requires
        0 <= i < 10,
    ensures
        within(Single { bits: SPECTRAL_R@[i] }, 149),
        within(Single { bits: SPECTRAL_G@[i] }, 149),
        within(Single { bits: SPECTRAL_B@[i] }, 149),
{
    assert(i == 0 || i == 1 || i == 2 || i == 3 || i == 4 || i == 5 || i == 6 || i == 7 || i == 8
        || i == 9);
    assert(SPECTRAL_R@[i] <= ONE && SPECTRAL_G@[i] <= ONE && SPECTRAL_B@[i] <= ONE);
    lemma_pattern_order(SPECTRAL_R@[i], ONE);
    lemma_pattern_order(SPECTRAL_G@[i], ONE);
    lemma_pattern_order(SPECTRAL_B@[i], ONE);
    lemma_one();
}

/// Patterns without a sign are in the order of their numbers.
pub proof fn lemma_pattern_order(a: u32, b: u32)
    requires
        a <= b < 0x7f80_0000,
    ensures
        (Single { bits: a }).value() <= (Single { bits: b }).value(),
{
    if a < b {
        lemma_magnitude_increases(a as nat, b as nat, 24);
    }
}

/// An eased channel of up to 2^16 is up to 2^17.
pub proof fn lemma_eased(v: Single)
    requires
        within(v, 165),
    ensures
        within(eased(v), 166),
{
    let e = Single { bits: WGM_EPSILON };
    let one = Single { bits: ONE };
    let half = Single { bits: HALF };
    let rest = one.minus_spec(e);
    lemma_steps();
    lemma_one();
    lemma_pattern_order(WGM_EPSILON, HALF);
    lemma_known(HALF, 0x80_0000, 125);
    lemma_negate(e);
    lemma_plus_at_least(one, e.negate_spec(), half);
    lemma_pattern_order(0, WGM_EPSILON);
    lemma_rest_in_unit(e);
    if !rest.finite() {
        lemma_finite_or_infinite(rest);
    }
    lemma_within_times(rest, v, 165);
    law_times_commutes(rest, v);
    lemma_pow2_strictly_increases(149, 165);
    lemma_within_plus(v.times_spec(rest), e, 165);
}

/// The reflectances of a colour whose channels are at most 2^16 are at most
/// 2^19.
pub proof fn lemma_spectrum_within(r: Single, g: Single, b: Single, i: int)
    requires
        within(r, 165),
        within(g, 165),
        within(b, 165),
        0 <= i < 10,
    ensures
        spectrum(r, g, b)[i].bits <= 0x4900_0000,
{
    lemma_pure(i);
    lemma_eased(r);
    lemma_eased(g);
    lemma_eased(b);
    let x = (Single { bits: SPECTRAL_R@[i] }).times_spec(eased(r));
    let y = (Single { bits: SPECTRAL_G@[i] }).times_spec(eased(g));
    let z = (Single { bits: SPECTRAL_B@[i] }).times_spec(eased(b));
    lemma_within_times(Single { bits: SPECTRAL_R@[i] }, eased(r), 166);
    lemma_within_times(Single { bits: SPECTRAL_G@[i] }, eased(g), 166);
    lemma_within_times(Single { bits: SPECTRAL_B@[i] }, eased(b), 166);
    lemma_within_plus(x, y, 166);
    lemma_pow2_strictly_increases(166, 167);
    lemma_within_plus(x.plus_spec(y), z, 167);
    let s = x.plus_spec(y).plus_spec(z);
    assert(s == spectrum(r, g, b)[i]);
    lemma_known(0x4900_0000, 0x80_0000, 145);
    lemma_pow2_adds(23, 145);
    assert(pow2(23) == 0x80_0000) by {
        lemma2_to64();
    }
    if s.bits > 0x4900_0000 {
        lemma_magnitude_increases(0x4900_0000, s.mag(), 24);
    }
}

/// A part of a reflectance within the bound.
proof fn lemma_part_of_band(c: Single, x: Single)
    requires
        c.mag() <= ONE,
        x.bits <= BOUND,
    ensures
        c.times_spec(x).finite(),
        -pow2(270) <= c.times_spec(x).value() <= pow2(270),
{
    let u = pow2(149);
    lemma_one();
    if c.mag() < ONE {
        lemma_magnitude_increases(c.mag(), ONE as nat, 24);
    }
    lemma_known(BOUND, 0x90_0000, 246);
    lemma_pattern_order(x.bits, BOUND);
    lemma_pow2_adds(24, 246);
    lemma_pow2_pos(246);
    assert(pow2(24) == 0x100_0000) by {
        lemma2_to64();
    }
    assert(c.units() * x.units() <= x.units() * u) by (nonlinear_arith)
        requires
            0 <= c.units() <= u,
            x.units() >= 0,
    ;
    lemma_nearest_at_most(c.units() * x.units(), u, x.mag());
    reveal(Single::times_spec);
}

/// Weighed bands within the bound add up to a finite number.
proof fn lemma_weighed(row: Seq<u32>, bands: Seq<Single>, n: nat)
    requires
        n <= 10,
        row.len() == 10,
        bands.len() == 10,
        forall|i: int| 0 <= i < 10 ==> #[trigger] row[i] % 0x8000_0000 <= ONE,
        forall|i: int| 0 <= i < 10 ==> (#[trigger] bands[i]).bits <= BOUND,
    ensures
        weighed(row, bands, n).finite(),
        -(n * pow2(270)) <= weighed(row, bands, n).value() <= n * pow2(270),
    decreases n,
{
    lemma_one();
    if n == 0 {
        assert(0 * pow2(270) == 0);
    } else {
        lemma_weighed(row, bands, (n - 1) as nat);
        let before = weighed(row, bands, (n - 1) as nat);
        let c = Single { bits: row[n - 1] };
        let term = c.times_spec(bands[n - 1]);
        assert(row[n - 1] % 0x8000_0000 <= ONE);
        lemma_part_of_band(c, bands[n - 1]);
        lemma_plus_value(before, term);
        let top = (n * pow2(270)) as int;
        assert((n - 1) * pow2(270) == top - pow2(270)) by (nonlinear_arith)
            requires
                top == n * pow2(270),
        ;
        let x = n * 0x2_0000;
        lemma_pow2_adds(17, 253);
        assert(pow2(17) == 0x2_0000) by {
            lemma2_to64();
        }
        assert(top == (x * pow2(253)) * 1) by (nonlinear_arith)
            requires
                top == n * (0x2_0000 * pow2(253)),
                x == n * 0x2_0000,
        ;
        lemma_nearest_exact(top as nat, 1, x, 253);
        assert(rounded(top) == top && rounded(-top) == -top);
        lemma_rounded_monotone(before.value() + term.value(), top);
        lemma_rounded_monotone(-top, before.value() + term.value());
        let s = before.plus_spec(term);
        if !s.finite() {
            lemma_finite_or_infinite(s);
            lemma_pow2_adds(7, 270);
            assert(pow2(7) == 128) by {
                lemma2_to64();
            }
            lemma_pow2_pos(270);
            assert(top < pow2(277)) by (nonlinear_arith)
                requires
                    top == n * pow2(270),
                    n <= 10,
                    pow2(277) == 128 * pow2(270),
                    pow2(270) > 0,
            ;
        }
    }
}

/// A channel of reflectances within the bound is a number.
proof fn lemma_channel_is_number(row: Seq<u32>, bands: Seq<Single>)
    requires
        row.len() == 10,
        bands.len() == 10,
        forall|i: int| 0 <= i < 10 ==> #[trigger] row[i] % 0x8000_0000 <= ONE,
        forall|i: int| 0 <= i < 10 ==> (#[trigger] bands[i]).bits <= BOUND,
    ensures
        !channel(row, bands).nan(),
{
    let e = Single { bits: WGM_EPSILON };
    let one = Single { bits: ONE };
    let half = Single { bits: HALF };
    let rest = one.minus_spec(e);
    lemma_steps();
    lemma_one();
    lemma_weighed(row, bands, 10);
    lemma_negate(e);
    let n = weighed(row, bands, 10).minus_spec(e);
    lemma_plus_value(weighed(row, bands, 10), e.negate_spec());
    lemma_pattern_order(WGM_EPSILON, HALF);
    lemma_known(HALF, 0x80_0000, 125);
    lemma_plus_at_least(one, e.negate_spec(), half);
    lemma_pattern_order(0, WGM_EPSILON);
    lemma_rest_in_unit(e);
    if !rest.finite() {
        lemma_finite_or_infinite(rest);
    }
    lemma_no_units(rest);
    assert(!n.over_spec(rest).nan()) by {
        reveal(Single::over_spec);
    }
}

/// The colour of reflectances within the bound is made of numbers.
pub proof fn lemma_seen_is_number(bands: Seq<Single>)
    requires
        bands.len() == 10,
        forall|i: int| 0 <= i < 10 ==> (#[trigger] bands[i]).bits <= BOUND,
    ensures
        !seen(bands).0.nan(),
        !seen(bands).1.nan(),
        !seen(bands).2.nan(),
{
    assert forall|i: int| 0 <= i < 10 implies #[trigger] TO_RED@[i] % 0x8000_0000 <= ONE by {
        lemma_rows(i);
    }
    assert forall|i: int| 0 <= i < 10 implies #[trigger] TO_GREEN@[i] % 0x8000_0000 <= ONE by {
        lemma_rows(i);
    }
    assert forall|i: int| 0 <= i < 10 implies #[trigger] TO_BLUE@[i] % 0x8000_0000 <= ONE by {
        lemma_rows(i);
    }
    lemma_channel_is_number(TO_RED@, bands);
    lemma_channel_is_number(TO_GREEN@, bands);
    lemma_channel_is_number(TO_BLUE@, bands);
}

/// No band weighs more than one.
proof fn lemma_rows(i: int)
    requires
        0 <= i < 10,
    ensures
        TO_RED@[i] % 0x8000_0000 <= ONE,
        TO_GREEN@[i] % 0x8000_0000 <= ONE,
        TO_BLUE@[i] % 0x8000_0000 <= ONE,
{
    assert(i == 0 || i == 1 || i == 2 || i == 3 || i == 4 || i == 5 || i == 6 || i == 7 || i == 8
        || i == 9);
}

/// A sum that is within half a step of its size of 127 is rounded to 127.
proof fn lemma_rounds_to_127(a: Single, b: Single)
    requires
        a.finite(),
        b.finite(),
        2130706372 * step() <= a.value() + b.value() <= 2130706492 * step(),
    ensures
        a.plus_spec(b) == (Single { bits: 0x42fe_0000 }),
{
    let w = step();
    let s = a.plus_spec(b);
    lemma_steps();
    lemma_plus_near(a, b, 156);
    lemma_pow2_adds(7, 125);
    assert(pow2(7) == 128) by {
        lemma2_to64();
    }
    assert(pow2(132) == 0x80 * w);
    lemma_known(0x42fe_0000, 0xfe_0000, 132);
    lemma_known(0x42fd_ffff, 0xfd_ffff, 132);
    lemma_known(0x42fe_0001, 0xfe_0001, 132);
    assert(s.value() > 0);
    if s.mag() < 0x42fe_0000 {
        if s.mag() < 0x42fd_ffff {
            lemma_magnitude_increases(s.mag(), 0x42fd_ffff, 24);
        }
    } else if s.mag() > 0x42fe_0000 {
        if s.mag() > 0x42fe_0001 {
            lemma_magnitude_increases(0x42fe_0001, s.mag(), 24);
        }
    }
}

/// The approximate power of nothing is one.
pub proof fn lemma_power_of_nothing(p: Single)
    requires
        p.zero(),
    ensures
        fastpow2_spec(p) == (Single { bits: ONE }),
{
    let w = step();
    let zero = Single { bits: 0 };
    let d1 = Single { bits: 0x42f2_8c51 };
    let d2 = Single { bits: 0x41dd_d2fd };
    let d3 = Single { bits: 0x409a_f5f8 };
    let d4 = Single { bits: 0x3fbe_bc8d };
    lemma_steps();
    lemma_one();
    lemma_no_units(p);
    lemma_no_units(zero);
    lemma_known(0x42fc_0000, 0xfc_0000, 132);
    assert(!p.lt_spec(Single { bits: 0xc2fc_0000 }) && !p.lt_spec(zero));
    assert(p.to_i32_spec() == 0) by {
        vstd::arithmetic::div_mod::lemma_basic_div(0, pow2(149) as int);
    }
    lemma_of_exact(0);
    let whole = Single::of(0);
    assert(whole == zero) by {
        lemma_no_units(whole);
        assert(0 * pow2(149) == 0);
    }
    let z = p.minus_spec(whole).plus_spec(zero);
    assert(z == zero) by {
        reveal(Single::plus_spec);
    }
    // The constants.
    lemma_known(0x42f2_8c51, 0xf2_8c51, 132);
    lemma_known(0x41dd_d2fd, 0xdd_d2fd, 130);
    lemma_known(0x409a_f5f8, 0x9a_f5f8, 128);
    lemma_known(0x3fbe_bc8d, 0xbe_bc8d, 126);
    lemma_pow2_unfold(128);
    lemma_pow2_unfold(129);
    lemma_pow2_unfold(130);
    assert(d1.value() == 2034641024 * w);
    assert(d2.value() == 465199008 * w);
    assert(d3.value() == 81244096 * w);
    assert(d3.minus_spec(zero) == d3) by {
        lemma_negate(zero);
        lemma_plus_value(d3, zero.negate_spec());
        lemma_rounded_exact(d3);
        lemma_same_value(d3.minus_spec(zero), d3);
    }
    assert(p.plus_spec(d1) == d1) by {
        lemma_plus_value(p, d1);
        lemma_rounded_exact(d1);
        lemma_same_value(p.plus_spec(d1), d1);
    }
    let r = d2.over_spec(d3);
    assert(d2.value() * pow2(149) < pow2(152) * d3.value()) by (nonlinear_arith)
        requires
            d2.value() == 465199008 * w,
            d3.value() == 81244096 * w,
            pow2(149) == 0x100_0000 * w,
            pow2(152) == 0x800_0000 * w,
            w > 0,
    ;
    lemma_over_near(d2, d3, 152);
    let rv = r.value();
    assert(96065366 * w <= rv <= 96065378 * w) by (nonlinear_arith)
        requires
            2 * (rv * (81244096 * w)) <= 2 * ((465199008 * w) * (0x100_0000 * w)) + (81244096 * w)
                * (8 * w),
            2 * ((465199008 * w) * (0x100_0000 * w)) <= 2 * (rv * (81244096 * w)) + (81244096 * w)
                * (8 * w),
            w > 0,
    ;
    lemma_rounds_to_127(d1, r);
    let s = Single { bits: 0x42fe_0000 };
    lemma_known(0x42fe_0000, 0xfe_0000, 132);
    let t = d4.times_spec(zero);
    law_times_commutes(d4, zero);
    law_times_nothing(zero, d4);
    lemma_no_units(t);
    assert(s.minus_spec(t) == s) by {
        lemma_negate(t);
        lemma_plus_value(s, t.negate_spec());
        lemma_rounded_exact(s);
        lemma_same_value(s.minus_spec(t), s);
    }
    let big = Single { bits: 0x4b00_0000 };
    lemma_known(0x4b00_0000, 0x80_0000, 149);
    let u = pow2(149);
    let n = big.units() * s.units();
    lemma_pow2_adds(17, 132);
    assert(pow2(17) == 0x2_0000) by {
        lemma2_to64();
    }
    assert(s.units() == 127 * u);
    assert(n == (127 * pow2(172)) * u) by {
        lemma_pow2_adds(23, 149);
        assert(pow2(23) == 0x80_0000) by {
            lemma2_to64();
        }
        assert((0x80_0000 * u) * (127 * u) == (127 * (0x80_0000 * u)) * u) by (nonlinear_arith);
    }
    lemma_nearest_exact(n, u, 127, 172);
    let x = big.times_spec(s);
    assert(x.units() == 127 * pow2(172) && !x.negative() && !x.nan()) by {
        reveal(Single::times_spec);
    }
    assert(x.truncated() == 0x3f80_0000) by {
        lemma_pow2_adds(23, 149);
        assert(pow2(23) == 0x80_0000) by {
            lemma2_to64();
        }
        assert(x.units() == 0x3f80_0000 * u);
        vstd::arithmetic::div_mod::lemma_div_by_multiple(0x3f80_0000, u as int);
    }
}

/// A reflectance to the power of nothing is one.
pub proof fn lemma_no_weight(x: Single, weight: Single)
    requires
        x.bits < 0x7f80_0000,
        weight.zero(),
    ensures
        fastpow_spec(x, weight) == (Single { bits: ONE }),
{
    lemma_log_at_most(x);
    law_times_nothing(weight, fastlog2_spec(x));
    lemma_power_of_nothing(weight.times_spec(fastlog2_spec(x)));
}

/// A reflectance of up to 2^19 to the power of one is a number.
pub proof fn lemma_full_weight(x: Single)
    requires
        x.bits <= 0x4900_0000,
    ensures
        fastpow_spec(x, Single { bits: ONE }).finite(),
{
    let w = step();
    let one = Single { bits: ONE };
    let l = fastlog2_spec(x);
    lemma_steps();
    lemma_log_at_most(x);
    law_times_commutes(one, l);
    law_times_one(l);
    assert(l.value() <= 335544320 * w) by (nonlinear_arith)
        requires
            l.value() <= (2 * x.bits - 2129261709) * w,
            x.bits <= 0x4900_0000,
            w > 0,
    ;
    lemma_power_at_most(l, 335544320);
}

/// In a geometric mean a spectrum of weight one stands alone: the other, of
/// weight zero, has no part in it.
pub proof fn law_full_weight_stands_alone(
    a: Seq<Single>,
    b: Seq<Single>,
    c: Seq<Single>,
)
    requires
        a.len() == 10,
        b.len() == 10,
        c.len() == 10,
        forall|i: int| 0 <= i < 10 ==> (#[trigger] a[i]).bits <= 0x4900_0000,
        forall|i: int| 0 <= i < 10 ==> (#[trigger] b[i]).bits < 0x7f80_0000,
        forall|i: int| 0 <= i < 10 ==> (#[trigger] c[i]).bits < 0x7f80_0000,
    ensures
        ({
            let one = Single { bits: ONE };
            let zero = Single { bits: 0 };
            &&& blended(a, b, one, zero) == blended(a, c, one, zero)
            &&& blended(b, a, zero, one) == blended(c, a, zero, one)
            &&& blended(a, b, one, zero) == blended(c, a, zero, one)
        }),
{
    let one = Single { bits: ONE };
    let zero = Single { bits: 0 };
    assert forall|i: int| 0 <= i < 10 implies fastpow_spec(#[trigger] a[i], one).times_spec(
        fastpow_spec(b[i], zero),
    ) == fastpow_spec(a[i], one) && fastpow_spec(a[i], one).times_spec(fastpow_spec(c[i], zero))
        == fastpow_spec(a[i], one) && fastpow_spec(b[i], zero).times_spec(fastpow_spec(a[i], one))
        == fastpow_spec(a[i], one) && fastpow_spec(c[i], zero).times_spec(fastpow_spec(a[i], one))
        == fastpow_spec(a[i], one) by {
        assert(b[i].bits < 0x7f80_0000 && c[i].bits < 0x7f80_0000);
        lemma_no_weight(b[i], zero);
        lemma_no_weight(c[i], zero);
        lemma_full_weight(a[i]);
        law_times_one(fastpow_spec(a[i], one));
        law_times_commutes(one, fastpow_spec(a[i], one));
    }
    assert(blended(a, b, one, zero) =~= blended(a, c, one, zero));
    assert(blended(b, a, zero, one) =~= blended(c, a, zero, one));
    assert(blended(a, b, one, zero) =~= blended(c, a, zero, one));
}

} // verus!
