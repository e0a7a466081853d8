//! How near the approximate powers come: a reflectance to the power of one is
//! itself, within a twelfth of an octave.
//!
//! Values are given in steps of 2^-24.
use crate::means::{lemma_rest, proper, size};
use crate::mixing::{
    held, lemma_eased, lemma_full_weight, lemma_held, lemma_log_at_most, lemma_no_weight,
    lemma_part, lemma_pattern, lemma_pattern_order, lemma_power_at_most, lemma_pure,
    lemma_rising_and_falling, lemma_spectrum_within, lemma_steps, lemma_within_plus,
    lemma_within_times, part_of, power_sum, step, within,
};
use crate::range::{
    lemma_known, lemma_nearest_at_least, lemma_negate, lemma_no_units, lemma_one, lemma_over_near,
    lemma_plus_at_least, lemma_plus_near, lemma_times_near,
};
use crate::rounding::lemma_magnitude_increases;
use crate::single::{law_times_commutes, law_times_one, Single, ONE};
use crate::spectral::{
    blended, eased, fastlog2_spec, fastpow2_spec, fastpow_spec, spectrum, SPECTRAL_B, SPECTRAL_G,
    SPECTRAL_R, WGM_EPSILON,
};
use vstd::arithmetic::power2::*;
use vstd::prelude::*;

verus! {

/// The parts of the approximate logarithm are not more than they should be.
proof fn lemma_significand_most(m: int)
    requires
        0x80_0000 <= m < 0x100_0000,
    ensures
        ({
            let w = step();
            let mx = Single { bits: (m + 0x3e80_0000) as u32 };
            let t = (Single { bits: 0x3fbf_bf75 }).times_spec(mx);
            let u = (Single { bits: 0x3eb4_44f8 }).plus_spec(mx);
            let q = (Single { bits: 0x3fdc_e9a3 }).over_spec(u);
            &&& t.finite() && 0 <= t.value() <= 0x200_0000 * w
            &&& 0x100_0000 * t.value() <= (25132778 * m + 0x100_0000) * w
            &&& q.finite() && 0 <= q.value() <= 0x300_0000 * w
            &&& u.value() >= (5907067 + m) * w
            &&& (q.value() - 2 * w) * u.value() <= (28955462 * w) * (0x100_0000 * w)
        }),
{
    let w = step();
    let mx = Single { bits: (m + 0x3e80_0000) as u32 };
    let c2 = Single { bits: 0x3fbf_bf75 };
    let c3 = Single { bits: 0x3fdc_e9a3 };
    let c4 = Single { bits: 0x3eb4_44f8 };
    let t = c2.times_spec(mx);
    let u = c4.plus_spec(mx);
    let q = c3.over_spec(u);
    lemma_steps();
    lemma_one();
    lemma_known((m + 0x3e80_0000) as u32, m as nat, 125);
    lemma_known(0x3fbf_bf75, 0xbf_bf75, 126);
    lemma_known(0x3fdc_e9a3, 0xdc_e9a3, 126);
    lemma_known(0x3eb4_44f8, 0xb4_44f8, 124);
    lemma_pow2_unfold(125);
    assert(c2.value() == 25132778 * w);
    assert(c3.value() == 28955462 * w);
    assert(c4.value() == 5907068 * w);
    assert(mx.value() == m * w);
    assert(c2.value() * mx.value() < pow2(150) * pow2(149)) by (nonlinear_arith)
        requires
            c2.value() == 25132778 * w,
            mx.value() == m * w,
            0 <= m < 0x100_0000,
            pow2(150) == 0x200_0000 * w,
            pow2(149) == 0x100_0000 * w,
            w > 0,
    ;
    assert(0x80_0000 * w <= m * w < 0x100_0000 * w) by (nonlinear_arith)
        requires
            0x80_0000 <= m < 0x100_0000,
            w > 0,
    ;
    lemma_times_near(c2, mx, 150);
    lemma_plus_near(c4, mx, 150);
    let tv = t.value();
    assert(0x100_0000 * tv <= (25132778 * m + 0x100_0000) * w && tv <= 0x200_0000 * w)
        by (nonlinear_arith)
        requires
            2 * (tv * (0x100_0000 * w)) <= 2 * ((25132778 * w) * (m * w)) + (0x100_0000 * w) * (2
                * w),
            m < 0x100_0000,
            w > 0,
    ;
    assert((5907067 + m) * w == 5907068 * w + m * w - w) by (nonlinear_arith);
    let uv = u.value();
    assert(uv >= 0xd0_0000 * w);
    assert(c3.value() * pow2(149) < pow2(151) * uv) by (nonlinear_arith)
        requires
            c3.value() == 28955462 * w,
            pow2(149) == 0x100_0000 * w,
            pow2(151) == 0x400_0000 * w,
            uv >= 0xd0_0000 * w,
            w > 0,
    ;
    lemma_over_near(c3, u, 151);
    let qv = q.value();
    assert((qv - 2 * w) * uv <= (28955462 * w) * (0x100_0000 * w)) by (nonlinear_arith)
        requires
            2 * (qv * uv) <= 2 * ((28955462 * w) * (0x100_0000 * w)) + uv * (4 * w),
    ;
    assert(qv <= 0x300_0000 * w) by (nonlinear_arith)
        requires
            2 * (qv * uv) <= 2 * ((28955462 * w) * (0x100_0000 * w)) + uv * (4 * w),
            uv >= 0xd0_0000 * w,
            w > 0,
    ;
}

/// The quotient lies below the chord of its hyperbola over an octave.
proof fn lemma_quotient_chord(q: int, u: int, w: int, m: int)
    requires
        w > 0,
        0x80_0000 <= m <= 0x100_0000,
        u >= (5907067 + m) * w,
        (q - 2 * w) * u <= (28955462 * w) * (0x100_0000 * w),
    ensures
        0x100_0000 * (q - 2 * w) <= (780948249509888 - 25132785 * m) * w,
{
    let p = q - 2 * w;
    let k = 28955462int * 0x1_0000_0000_0000;
    let line = 780948249509888 - 25132785 * m;
    let d = 5907067 + m;
    lemma_rising_and_falling(
        359290086883328,
        25132785,
        22684283,
        0x80_0000,
        0x100_0000 - m,
        k,
    );
    assert(359290086883328 + 25132785 * (0x100_0000 - m) <= line);
    assert(line * d >= k) by (nonlinear_arith)
        requires
            (359290086883328 + 25132785 * (0x100_0000 - m)) * (22684283 - (0x100_0000 - m)) >= k,
            359290086883328 + 25132785 * (0x100_0000 - m) <= line,
            d == 22684283 - (0x100_0000 - m),
            d > 0,
    ;
    if p > 0 {
        assert(p * d <= 28955462 * 0x100_0000 * w) by (nonlinear_arith)
            requires
                p * u <= (28955462 * w) * (0x100_0000 * w),
                u >= d * w,
                p > 0,
                w > 0,
        ;
        assert(0x100_0000 * p <= line * w) by (nonlinear_arith)
            requires
                p * d <= 28955462 * 0x100_0000 * w,
                line * d >= 28955462 * 0x1_0000_0000_0000,
                d > 0,
                w > 0,
        ;
    } else {
        assert(line * w >= 0) by (nonlinear_arith)
            requires
                line >= 0,
                w > 0,
        ;
    }
}

/// The approximate logarithm is not below what its pattern shows, but for
/// rounding.
proof fn lemma_log_at_least(x: Single)
    requires
        x.bits < 0x7f80_0000,
    ensures
        fastlog2_spec(x).finite(),
        fastlog2_spec(x).value() >= (2 * x.bits - 2130707120) * step(),
{
    let w = step();
    let bits = x.bits;
    let m = (bits % 0x80_0000 + 0x80_0000) as int;
    let y = Single::from_u32_spec(bits).times_spec(Single { bits: 0x3400_0000 });
    let c1 = Single { bits: 0x42f8_7377 };
    let mx = Single { bits: (bits % 0x80_0000 + 0x3f00_0000) as u32 };
    assert(mx == (Single { bits: (m + 0x3e80_0000) as u32 }));
    let t = (Single { bits: 0x3fbf_bf75 }).times_spec(mx);
    let u = (Single { bits: 0x3eb4_44f8 }).plus_spec(mx);
    let q = (Single { bits: 0x3fdc_e9a3 }).over_spec(u);
    lemma_steps();
    lemma_pattern(bits);
    lemma_significand_most(m);
    lemma_known(0x42f8_7377, 0xf8_7377, 132);
    assert(c1.value() == 2084158336 * w);
    assert((2 * bits + 256) * w <= 0xff00_0200 * w) by (nonlinear_arith)
        requires
            bits < 0x7f80_0000,
            w > 0,
    ;
    lemma_negate(c1);
    lemma_negate(t);
    lemma_negate(q);
    lemma_plus_near(y, c1.negate_spec(), 157);
    let r1 = y.minus_spec(c1);
    lemma_plus_near(r1, t.negate_spec(), 157);
    let r2 = r1.minus_spec(t);
    lemma_plus_near(r2, q.negate_spec(), 157);
    let r = r2.minus_spec(q);
    assert(r == fastlog2_spec(x));
    let (rv, tv, qv) = (r.value(), t.value(), q.value());
    assert(rv >= (2 * bits - 256) * w - 2084158336 * w - tv - qv - 384 * w);
    lemma_quotient_chord(qv, u.value(), w, m);
    assert((25132778 * m + 0x100_0000) * w == 25132778 * (m * w) + 0x100_0000 * w)
        by (nonlinear_arith);
    assert((780948249509888 - 25132785 * m) * w == 780948249509888 * w - 25132785 * (m * w))
        by (nonlinear_arith);
    assert(m * w >= 0x80_0000 * w) by (nonlinear_arith)
        requires
            m >= 0x80_0000,
            w > 0,
    ;
    assert((2 * bits - 256) * w == 2 * (bits * w) - 256 * w && (2 * bits - 2130707120) * w == 2 * (
    bits * w) - 2130707120 * w) by (nonlinear_arith);
}

/// The tangent of a hyperbola lies below it.
proof fn lemma_power_tangent(q: int, d: int, w: int)
    requires
        w > 0,
        d > 0,
        q * d >= (465199008 * w) * (0x100_0000 * w),
    ensures
        0x100_0000 * q >= 3618604989808640 * w - 25000218 * d,
{
    let a: int = 215685665;
    let b: int = 25000218;
    let c: int = 465199008;
    let v = 0x100_0000 * w;
    let x = a * v - b * d;
    assert(4 * b * (x * d) == (a * v) * (a * v) - (a * v - 2 * b * d) * (a * v - 2 * b * d))
        by (nonlinear_arith)
        requires
            x == a * v - b * d,
    ;
    assert((a * v - 2 * b * d) * (a * v - 2 * b * d) >= 0) by (nonlinear_arith);
    assert((a * v) * (a * v) <= 4 * b * c * (v * v)) by (nonlinear_arith)
        requires
            a * a <= 4 * b * c,
    ;
    assert(x * d <= c * (v * v)) by (nonlinear_arith)
        requires
            4 * b * (x * d) <= 4 * b * c * (v * v),
            b > 0,
    ;
    assert(0x100_0000 * (q * d) >= c * (v * v)) by (nonlinear_arith)
        requires
            q * d >= (c * w) * (0x100_0000 * w),
            v == 0x100_0000 * w,
    ;
    assert(0x100_0000 * q >= x) by (nonlinear_arith)
        requires
            x * d <= 0x100_0000 * (q * d),
            d > 0,
    ;
    assert(a * v == 3618604989808640 * w) by (nonlinear_arith)
        requires
            a == 215685665,
            v == 0x100_0000 * w,
    ;
}

/// The sum that an approximate power is made of is not below the exponent by
/// more than the tangent shows.
proof fn lemma_power_sum_at_least(c: Single, z: Single)
    requires
        c.finite(),
        -126 * pow2(149) <= c.value() < 121 * pow2(149),
        z.finite(),
        0 <= z.value() <= pow2(149),
    ensures
        power_sum(c, z).finite(),
        power_sum(c, z).value() >= c.value() + 2129262100 * step(),
        power_sum(c, z).value() < 0x1_0000_0000 * step(),
{
    let w = step();
    let v = z.value();
    let d1 = Single { bits: 0x42f2_8c51 };
    let d2 = Single { bits: 0x41dd_d2fd };
    let d3 = Single { bits: 0x409a_f5f8 };
    let d4 = Single { bits: 0x3fbe_bc8d };
    lemma_steps();
    lemma_known(0x42f2_8c51, 0xf2_8c51, 132);
    lemma_known(0x41dd_d2fd, 0xdd_d2fd, 130);
    lemma_known(0x409a_f5f8, 0x9a_f5f8, 128);
    lemma_known(0x3fbe_bc8d, 0xbe_bc8d, 126);
    lemma_pow2_unfold(128);
    lemma_pow2_unfold(129);
    lemma_pow2_unfold(130);
    assert(d1.value() == 2034641024 * w);
    assert(d2.value() == 465199008 * w);
    assert(d3.value() == 81244096 * w);
    assert(d4.value() == 25000218 * w);
    lemma_negate(z);
    lemma_plus_near(d3, z.negate_spec(), 152);
    let d = d3.minus_spec(z);
    let dv = d.value();
    assert(64466876 * w <= dv <= 81244100 * w - v);
    assert(d2.value() * pow2(149) < pow2(152) * dv) by (nonlinear_arith)
        requires
            d2.value() == 465199008 * w,
            pow2(149) == 0x100_0000 * w,
            pow2(152) == 0x800_0000 * w,
            dv >= 64466876 * w,
            w > 0,
    ;
    lemma_over_near(d2, d, 152);
    let r = d2.over_spec(d);
    let rv = r.value();
    assert((rv + 4 * w) * dv >= (465199008 * w) * (0x100_0000 * w)) by (nonlinear_arith)
        requires
            2 * ((465199008 * w) * (0x100_0000 * w)) <= 2 * (rv * dv) + dv * (8 * w),
    ;
    assert(rv <= 0x800_0000 * w) by (nonlinear_arith)
        requires
            2 * (rv * dv) <= 2 * ((465199008 * w) * (0x100_0000 * w)) + dv * (8 * w),
            dv >= 64466876 * w,
            w > 0,
    ;
    lemma_power_tangent(rv + 4 * w, dv, w);
    assert(d4.value() * v < pow2(150) * pow2(149)) by (nonlinear_arith)
        requires
            d4.value() == 25000218 * w,
            0 <= v <= 0x100_0000 * w,
            pow2(150) == 0x200_0000 * w,
            pow2(149) == 0x100_0000 * w,
            w > 0,
    ;
    lemma_times_near(d4, z, 150);
    let m = d4.times_spec(z);
    let mv = m.value();
    assert(0x100_0000 * mv <= 25000218 * v + 0x100_0000 * w) by (nonlinear_arith)
        requires
            2 * (mv * (0x100_0000 * w)) <= 2 * ((25000218 * w) * v) + (0x100_0000 * w) * (2 * w),
            w > 0,
    ;
    assert(mv <= 0x200_0000 * w);
    lemma_plus_near(c, d1, 157);
    let s1 = c.plus_spec(d1);
    lemma_plus_near(s1, r, 157);
    let s2 = s1.plus_spec(r);
    lemma_negate(m);
    lemma_plus_near(s2, m.negate_spec(), 157);
    let s = s2.minus_spec(m);
    assert(s == power_sum(c, z));
    assert(s.value() >= c.value() + 2034641024 * w + rv - mv - 384 * w);
}

/// A sum as the pattern of a number, from below.
proof fn lemma_to_pattern_at_least(s: Single)
    requires
        s.finite(),
        0 < s.value() < 0x1_0000_0000 * step(),
    ensures
        2 * (Single { bits: 0x4b00_0000 }).times_spec(s).to_u32_spec() * step() >= s.value() - 130
            * step(),
{
    let w = step();
    let big = Single { bits: 0x4b00_0000 };
    let x = big.times_spec(s);
    let u = pow2(149) as int;
    lemma_steps();
    lemma_known(0x4b00_0000, 0x80_0000, 149);
    assert(big.value() == 0x80_0000 * u);
    let v = s.value();
    assert(big.value() * v < pow2(180) * pow2(149)) by (nonlinear_arith)
        requires
            big.value() == 0x80_0000 * (0x100_0000 * w),
            0 <= v < 0x1_0000_0000 * w,
            pow2(180) == 0x80_0000_0000_0000 * w,
            pow2(149) == 0x100_0000 * w,
            w > 0,
    ;
    lemma_times_near(big, s, 180);
    let y = x.value();
    assert(y >= 0x80_0000 * v - 0x4000_0000 * w) by (nonlinear_arith)
        requires
            2 * ((0x80_0000 * (0x100_0000 * w)) * v) <= 2 * (y * (0x100_0000 * w)) + (0x100_0000
                * w) * (0x8000_0000 * w),
            w > 0,
    ;
    assert(y <= 0x80_0000 * v + 0x4000_0000 * w) by (nonlinear_arith)
        requires
            2 * (y * (0x100_0000 * w)) <= 2 * ((0x80_0000 * (0x100_0000 * w)) * v) + (0x100_0000
                * w) * (0x8000_0000 * w),
            w > 0,
    ;
    lemma_no_units(x);
    vstd::arithmetic::div_mod::lemma_fundamental_div_mod(x.units() as int, u);
    let n = x.units() as int / u;
    assert(u * n <= y < u * n + u);
    assert(0 <= n < 0x8000_0100) by (nonlinear_arith)
        requires
            u * n <= y < u * n + u,
            0 <= y <= 0x80_0000 * v + 0x4000_0000 * w,
            v < 0x1_0000_0000 * w,
            u == 0x100_0000 * w,
            w > 0,
    ;
    let bits = x.to_u32_spec();
    if x.negative() {
        assert(x.units() == 0);
        vstd::arithmetic::div_mod::lemma_basic_div(0, u);
    }
    assert(bits == n);
    assert(u * n == 0x80_0000 * (2 * bits * w)) by (nonlinear_arith)
        requires
            u == 0x100_0000 * w,
            bits == n,
    ;
}

/// The approximate power of two, from below.
proof fn lemma_power_at_least(p: Single)
    requires
        p.finite(),
        -126 * pow2(149) <= p.value() < 121 * pow2(149),
    ensures
        2 * fastpow2_spec(p).bits * step() >= p.value() + 2129261970 * step(),
{
    let w = step();
    let offset = if p.lt_spec(Single { bits: 0 }) {
        Single { bits: ONE }
    } else {
        Single { bits: 0 }
    };
    let z = part_of(held(p), offset);
    lemma_steps();
    lemma_one();
    lemma_held(p);
    lemma_part(p, offset);
    lemma_power_sum_at_least(p, z);
    let s = power_sum(p, z);
    assert(s.value() > 0);
    lemma_to_pattern_at_least(s);
}

/// A reflectance to the power of one is itself, within a twelfth of an octave:
/// their patterns, in which an octave is 2^23, are nearly the same.
pub proof fn law_power_of_one_is_the_reflectance(x: Single)
    requires
        0x100_0000 <= x.bits <= 0x4900_0000,
    ensures
        size(fastpow_spec(x, Single { bits: ONE }).bits - x.bits) <= 722800,
{
    let w = step();
    let one = Single { bits: ONE };
    let l = fastlog2_spec(x);
    lemma_steps();
    lemma_log_at_most(x);
    lemma_log_at_least(x);
    law_times_commutes(one, l);
    law_times_one(l);
    let n = 2 * x.bits - 2129261709;
    assert(n * w <= 335544320 * w) by (nonlinear_arith)
        requires
            n <= 335544320,
            w > 0,
    ;
    let low = 2 * x.bits - 2130707120;
    assert(low * w >= -2113929216 * w) by (nonlinear_arith)
        requires
            low >= -2113929216,
            w > 0,
    ;
    lemma_power_at_most(l, n);
    lemma_power_at_least(l);
    let bits = fastpow2_spec(l).bits;
    assert(2 * bits >= low + 2129261970) by (nonlinear_arith)
        requires
            2 * bits * w >= low * w + 2129261970 * w,
            w > 0,
    ;
}

/// A spectrum that has all the weight of a mix comes out as itself, band by
/// band within a twelfth of an octave.
pub proof fn law_whole_weight_keeps_the_spectrum(a: Seq<Single>, b: Seq<Single>, i: int)
    requires
        a.len() == 10,
        b.len() == 10,
        forall|i: int| 0 <= i < 10 ==> 0x100_0000 <= (#[trigger] a[i]).bits <= 0x4900_0000,
        forall|i: int| 0 <= i < 10 ==> (#[trigger] b[i]).bits < 0x7f80_0000,
        0 <= i < 10,
    ensures
        ({
            let one = Single { bits: ONE };
            let zero = Single { bits: 0 };
            &&& size(blended(a, b, one, zero)[i].bits - a[i].bits) <= 722800
            &&& size(blended(b, a, zero, one)[i].bits - a[i].bits) <= 722800
        }),
{
    let one = Single { bits: ONE };
    let zero = Single { bits: 0 };
    assert(a[i].bits <= 0x4900_0000 && b[i].bits < 0x7f80_0000);
    law_power_of_one_is_the_reflectance(a[i]);
    lemma_no_weight(b[i], zero);
    lemma_full_weight(a[i]);
    law_times_one(fastpow_spec(a[i], one));
    law_times_commutes(one, fastpow_spec(a[i], one));
}

/// A reflectance is never nothing: the easing of the channels keeps it above
/// 2^-19.
pub proof fn lemma_reflectance_at_least(r: Single, g: Single, b: Single, i: int)
    requires
        within(r, 165),
        within(g, 165),
        within(b, 165),
        0 <= i < 10,
    ensures
        0x3600_0000 <= spectrum(r, g, b)[i].bits <= 0x4900_0000,
{
    let least = Single { bits: 0x3600_0000 };
    lemma_spectrum_within(r, g, b, i);
    lemma_pure(i);
    lemma_eased(r);
    lemma_eased(g);
    lemma_eased(b);
    lemma_eased_at_least(r);
    let c = Single { bits: SPECTRAL_R@[i] };
    let x = c.times_spec(eased(r));
    let y = (Single { bits: SPECTRAL_G@[i] }).times_spec(eased(g));
    let z = (Single { bits: SPECTRAL_B@[i] }).times_spec(eased(b));
    lemma_one();
    lemma_within_times(c, eased(r), 166);
    lemma_within_times(Single { bits: SPECTRAL_G@[i] }, eased(g), 166);
    lemma_within_times(Single { bits: SPECTRAL_B@[i] }, eased(b), 166);
    assert(SPECTRAL_R@[i] >= 0x3b00_0000) by {
        assert(i == 0 || i == 1 || i == 2 || i == 3 || i == 4 || i == 5 || i == 6 || i == 7 || i
            == 8 || i == 9);
    }
    lemma_pattern_order(0x3b00_0000, SPECTRAL_R@[i]);
    lemma_known(0x3b00_0000, 0x80_0000, 117);
    lemma_known(0x3a80_0000, 0x80_0000, 116);
    lemma_known(0x3600_0000, 0x80_0000, 107);
    lemma_pow2_adds(23, 117);
    lemma_pow2_adds(23, 116);
    lemma_pow2_adds(23, 107);
    lemma_pow2_adds(140, 139);
    lemma_pow2_adds(130, 149);
    assert(pow2(23) == 0x80_0000) by {
        lemma2_to64();
    }
    let n = c.units() * eased(r).units();
    assert(least.units() * pow2(149) <= n) by (nonlinear_arith)
        requires
            least.units() == pow2(130),
            pow2(130) * pow2(149) == pow2(140) * pow2(139),
            n == c.units() * eased(r).units(),
            c.units() >= pow2(140),
            eased(r).units() >= pow2(139),
            pow2(140) >= 0,
            pow2(139) >= 0,
    ;
    lemma_nearest_at_least(n, pow2(149), 0x3600_0000);
    assert(x.value() >= least.value()) by {
        reveal(Single::times_spec);
    }
    lemma_within_plus(x, y, 166);
    lemma_plus_at_least(x, y, least);
    lemma_pow2_strictly_increases(166, 167);
    lemma_plus_at_least(x.plus_spec(y), z, least);
    lemma_within_plus(x.plus_spec(y), z, 167);
    let s = x.plus_spec(y).plus_spec(z);
    assert(s == spectrum(r, g, b)[i]);
    if s.bits < 0x3600_0000 {
        lemma_magnitude_increases(s.mag(), 0x3600_0000, 24);
    }
}

/// An eased channel is at least 2^-10.
proof fn lemma_eased_at_least(v: Single)
    requires
        within(v, 165),
    ensures
        eased(v).value() >= pow2(139),
{
    let e = Single { bits: WGM_EPSILON };
    let one = Single { bits: ONE };
    let least = Single { bits: 0x3a80_0000 };
    let rest = one.minus_spec(e);
    lemma_one();
    lemma_known(0x3a80_0000, 0x80_0000, 116);
    lemma_pow2_adds(23, 116);
    assert(pow2(23) == 0x80_0000) by {
        lemma2_to64();
    }
    lemma_pattern_order(0x3a80_0000, WGM_EPSILON);
    lemma_pattern_order(WGM_EPSILON, ONE);
    lemma_pattern_order(0, WGM_EPSILON);
    lemma_rest(e);
    lemma_within_rest(rest);
    lemma_within_times(rest, v, 165);
    law_times_commutes(rest, v);
    lemma_plus_at_least(v.times_spec(rest), e, least);
}

/// What is left of one after the easing has no sign.
proof fn lemma_within_rest(rest: Single)
    requires
        rest == (Single { bits: ONE }).minus_spec(Single { bits: WGM_EPSILON }),
        proper(rest),
    ensures
        within(rest, 149),
{
    let one = Single { bits: ONE };
    let e = Single { bits: WGM_EPSILON };
    let half = Single { bits: 0x3f00_0000 };
    lemma_one();
    lemma_known(0x3f00_0000, 0x80_0000, 125);
    lemma_pow2_adds(24, 125);
    lemma_pow2_pos(125);
    assert(pow2(24) == 0x100_0000) by {
        lemma2_to64();
    }
    lemma_pattern_order(WGM_EPSILON, 0x3f00_0000);
    lemma_negate(e);
    lemma_plus_at_least(one, e.negate_spec(), half);
}

} // verus!
