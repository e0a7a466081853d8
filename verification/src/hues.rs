//! Hue, saturation and value, in exact arithmetic.
//!
//! Values are in units of 2^-149, so that one is 2^149.
use crate::color::{hsv_to_rgb_spec, rgb_to_hsv_spec, unit, Hsv};
use crate::means::{
    lemma_over_close, lemma_over_finite, lemma_proper_product, lemma_rest, lemma_same_value, proper,
    size,
};
use crate::range::{
    lemma_finite_or_infinite, lemma_known, lemma_nearest_at_most, lemma_negate, lemma_no_units,
    lemma_one, lemma_over_order, lemma_plus_near, lemma_plus_value, lemma_rounded_exact,
    lemma_rounded_monotone, lemma_times_near, rounded,
};
use crate::rounding::lemma_code_exact;
use crate::single::{
    law_times_one, lemma_infinity_units, lemma_of_exact, Single, FOUR, ONE, SIX, TWO,
};
use vstd::arithmetic::div_mod::*;
use vstd::arithmetic::power2::*;
use vstd::prelude::*;

verus! {

/// How much of the saturation a channel loses at a place on the colour circle,
/// which is six long: nothing within one of where the channel is purest, all of
/// it beyond two, and in proportion between.  `turn` is how far the place where
/// the channel is purest lies from the end of the circle.
pub open spec fn dip(place: int, turn: int) -> int {
    let u = pow2(149) as int;
    let k = if place + turn * u >= 6 * u {
        place + turn * u - 6 * u
    } else {
        place + turn * u
    };
    let d = if k <= 4 * u - k {
        k
    } else {
        4 * u - k
    };
    if d < 0 {
        0
    } else if d > u {
        u
    } else {
        d
    }
}

/// Whether a channel is the value, less the saturation times what the channel
/// loses of it at the hue, to within a part in 2^18.
pub open spec fn tone_of(hsv: Hsv, turn: int, c: Single) -> bool {
    let u = pow2(149) as int;
    let lost = hsv.s.value() * dip(6 * hsv.h.value(), turn);
    &&& c.finite()
    &&& size(u * u * c.value() - hsv.v.value() * (u * u - lost)) <= u * u * pow2(131)
}

/// A channel that loses about `x` of the saturation.
proof fn lemma_toned(v: Single, s: Single, x: Single, exact: int)
    requires
        proper(v),
        proper(s),
        proper(x),
        size(x.value() - exact) <= pow2(129),
        0 <= exact <= pow2(149),
    ensures
        ({
            let u = pow2(149) as int;
            let c = v.times_spec((Single { bits: ONE }).minus_spec(s.times_spec(x)));
            &&& proper(c)
            &&& size(u * u * c.value() - v.value() * (u * u - s.value() * exact)) <= u * u * pow2(
                130,
            )
        }),
{
    let u = pow2(149) as int;
    let w = pow2(125) as int;
    let one = Single { bits: ONE };
    let p = s.times_spec(x);
    let r = one.minus_spec(p);
    let c = v.times_spec(r);
    lemma_one();
    lemma_proper_product(s, x);
    lemma_rest(p);
    lemma_proper_product(v, r);
    lemma_pow2_unfold(126);
    lemma_pow2_unfold(127);
    lemma_pow2_unfold(128);
    lemma_pow2_unfold(129);
    lemma_pow2_unfold(130);
    lemma_pow2_pos(125);
    let (vv, sv, xv, pv, rv, cv) = (
        v.value(),
        s.value(),
        x.value(),
        p.value(),
        r.value(),
        c.value(),
    );
    let e1 = u * pv - sv * xv;
    let e2 = rv - (u - pv);
    let e3 = u * cv - vv * rv;
    let e4 = xv - exact;
    assert(u * u * cv - vv * (u * u - sv * exact) == u * e3 + u * (vv * e2) - vv * e1 - (vv * sv)
        * e4) by {
        lemma_tone_errors(u, vv, sv, exact, xv, pv, rv, cv);
    }
    assert(size(u * e3) <= u * (u * (2 * w))) by (nonlinear_arith)
        requires
            size(e3) <= u * (2 * w),
            size(e3) == (if e3 < 0 {
                -e3
            } else {
                e3
            }),
            size(u * e3) == (if u * e3 < 0 {
                -(u * e3)
            } else {
                u * e3
            }),
            u > 0,
    ;
    assert(size(u * (vv * e2)) <= u * (u * w)) by (nonlinear_arith)
        requires
            size(e2) <= w,
            size(e2) == (if e2 < 0 {
                -e2
            } else {
                e2
            }),
            size(u * (vv * e2)) == (if u * (vv * e2) < 0 {
                -(u * (vv * e2))
            } else {
                u * (vv * e2)
            }),
            0 <= vv <= u,
            u > 0,
    ;
    assert(size(vv * e1) <= u * (u * (2 * w))) by (nonlinear_arith)
        requires
            size(e1) <= u * (2 * w),
            size(e1) == (if e1 < 0 {
                -e1
            } else {
                e1
            }),
            size(vv * e1) == (if vv * e1 < 0 {
                -(vv * e1)
            } else {
                vv * e1
            }),
            0 <= vv <= u,
    ;
    assert(0 <= vv * sv <= u * u) by (nonlinear_arith)
        requires
            0 <= vv <= u,
            0 <= sv <= u,
    ;
    let vs = vv * sv;
    assert(size(vs * e4) <= (u * u) * (16 * w)) by (nonlinear_arith)
        requires
            size(e4) <= 16 * w,
            size(e4) == (if e4 < 0 {
                -e4
            } else {
                e4
            }),
            size(vs * e4) == (if vs * e4 < 0 {
                -(vs * e4)
            } else {
                vs * e4
            }),
            0 <= vs <= u * u,
    ;
    let q = u * u * w;
    assert(u * (u * (2 * w)) == 2 * q && u * (u * w) == q && (u * u) * (16 * w) == 16 * q && u * u
        * (32 * w) == 32 * q) by (nonlinear_arith)
        requires
            q == u * u * w,
    ;
}

proof fn lemma_tone_errors(u: int, v: int, s: int, e: int, x: int, p: int, r: int, c: int)
    ensures
        u * u * c - v * (u * u - s * e) == u * (u * c - v * r) + u * (v * (r - (u - p))) - v * (u * p
            - s * x) - (v * s) * (x - e),
{
    let (uv, vs) = (u * v, v * s);
    assert(u * (u * c - v * r) == u * u * c - uv * r) by (nonlinear_arith)
        requires
            uv == u * v,
    ;
    assert(u * (v * (r - (u - p))) == uv * r - uv * u + uv * p) by (nonlinear_arith)
        requires
            uv == u * v,
    ;
    assert(v * (u * p - s * x) == uv * p - vs * x) by (nonlinear_arith)
        requires
            uv == u * v,
            vs == v * s,
    ;
    assert(vs * (x - e) == vs * x - vs * e) by (nonlinear_arith);
    assert(v * (u * u - s * e) == uv * u - vs * e) by (nonlinear_arith)
        requires
            uv == u * v,
            vs == v * s,
    ;
}

/// A hue of less than one turn is its own remainder.
pub proof fn lemma_hue_itself(h: Single)
    requires
        h.finite(),
        !h.negative(),
        h.value() < pow2(149),
    ensures
        h.rem_euclid_spec(Single { bits: ONE }) == h,
{
    let one = Single { bits: ONE };
    lemma_one();
    lemma_no_units(one);
    lemma_infinity_units();
    reveal(Single::rem_spec);
    lemma_small_mod(h.units(), pow2(149));
    lemma_code_exact(h.mag(), 24);
}

/// The colour of a hue, a saturation and a value: every channel is the value,
/// less the saturation times what the hue takes of that channel.  Red is purest
/// at the beginning of the circle, green at a third of it and blue at two.
pub proof fn law_channels_dip_with_the_hue(hsv: Hsv)
    requires
        proper(hsv.h),
        !hsv.h.negative(),
        hsv.h.value() < pow2(149),
        proper(hsv.s),
        proper(hsv.v),
    ensures
        tone_of(hsv, 5, hsv_to_rgb_spec(hsv).r),
        tone_of(hsv, 3, hsv_to_rgb_spec(hsv).g),
        tone_of(hsv, 1, hsv_to_rgb_spec(hsv).b),
        hsv_to_rgb_spec(hsv).a == (Single { bits: ONE }),
{
    let u = pow2(149) as int;
    let w = pow2(125) as int;
    let one = Single { bits: ONE };
    let six = Single { bits: SIX };
    lemma_one();
    lemma_hue_itself(hsv.h);
    lemma_known(SIX, 0xc0_0000, 128);
    lemma_pow2_adds(21, 128);
    lemma_pow2_adds(24, 125);
    lemma_pow2_unfold(126);
    lemma_pow2_unfold(127);
    lemma_pow2_unfold(128);
    lemma_pow2_unfold(129);
    lemma_pow2_unfold(130);
    lemma_pow2_unfold(131);
    lemma_pow2_pos(125);
    lemma_pow2_unfold(150);
    lemma_pow2_unfold(151);
    lemma_pow2_unfold(152);
    assert(pow2(21) == 0x20_0000 && pow2(24) == 0x100_0000) by {
        lemma2_to64();
    }
    assert(six.value() == 6 * u);
    let h = hsv.h.times_spec(six);
    let hv = hsv.h.value();
    let p = hv * six.value();
    assert(p == 6 * (hv * u)) by (nonlinear_arith)
        requires
            p == hv * (6 * u),
    ;
    assert(hv * u <= u * u) by (nonlinear_arith)
        requires
            0 <= hv <= u,
            u > 0,
    ;
    assert(p < pow2(152) * pow2(149)) by (nonlinear_arith)
        requires
            p == 6 * (hv * u),
            hv * u <= u * u,
            pow2(152) == 8 * u,
            pow2(149) == u,
            u > 0,
    ;
    lemma_times_near(hsv.h, six, 152);
    let x = h.value();
    assert(size(x - 6 * hv) <= 4 * w) by (nonlinear_arith)
        requires
            2 * (x * u) <= 2 * (6 * (hv * u)) + u * (8 * w),
            2 * (6 * (hv * u)) <= 2 * (x * u) + u * (8 * w),
            size(x - 6 * hv) == (if x - 6 * hv < 0 {
                -(x - 6 * hv)
            } else {
                x - 6 * hv
            }),
            u > 0,
    ;
    // The sextant.
    lemma_fundamental_div_mod(x, u);
    let i = x / u;
    assert(u * i == i * u) by (nonlinear_arith);
    assert(0 <= i <= 6) by (nonlinear_arith)
        requires
            x == u * i + x % u,
            0 <= x % u < u,
            0 <= x < 7 * u,
    ;
    assert(h.floor_i32_spec() == i);
    lemma_of_exact(i as nat);
    let whole = Single::of(i);
    lemma_negate(whole);
    let f = h.minus_spec(whole);
    lemma_plus_near(h, whole.negate_spec(), 150);
    lemma_between(h, whole, f, i);
    let fv = f.value();
    assert(size(fv - (x - i * u)) <= w);
    lemma_rest(f);
    let g = one.minus_spec(f);
    law_times_one(hsv.s);
    let t = 6 * hv;
    assert((i + 1) * u == i * u + u) by (nonlinear_arith);
    lemma_sextants(hsv, t, x, i, f, g);
}

/// The part of the sextant that is passed is from zero to one.
proof fn lemma_between(h: Single, whole: Single, f: Single, i: int)
    requires
        h.finite(),
        whole.finite(),
        whole.value() == i * pow2(149),
        f == h.minus_spec(whole),
        0 <= h.value() - whole.value() < pow2(149),
    ensures
        proper(f),
{
    lemma_one();
    lemma_infinity_units();
    lemma_negate(whole);
    lemma_plus_value(h, whole.negate_spec());
    lemma_rounded_monotone(0, h.value() - whole.value());
    lemma_rounded_monotone(h.value() - whole.value(), pow2(149) as int);
    lemma_rounded_exact(Single { bits: 0 });
    lemma_rounded_exact(Single { bits: ONE });
    if !f.finite() {
        lemma_finite_or_infinite(f);
    }
}

/// The channels in each of the sextants.
proof fn lemma_sextants(hsv: Hsv, t: int, x: int, i: int, f: Single, g: Single)
    requires
        proper(hsv.s),
        proper(hsv.v),
        t == 6 * hsv.h.value(),
        0 <= t < 6 * pow2(149),
        0 <= i <= 6,
        size(x - t) <= pow2(127),
        i * pow2(149) <= x < (i + 1) * pow2(149),
        proper(f),
        size(f.value() - (x - i * pow2(149))) <= pow2(125),
        g == (Single { bits: ONE }).minus_spec(f),
        ({
            let one = Single { bits: ONE };
            let h = hsv.h.rem_euclid_spec(one).times_spec(Single { bits: SIX });
            h.floor_i32_spec() == i && f == h.minus_spec(Single::from_i32_spec(i as i32))
        }),
    ensures
        tone_of(hsv, 5, hsv_to_rgb_spec(hsv).r),
        tone_of(hsv, 3, hsv_to_rgb_spec(hsv).g),
        tone_of(hsv, 1, hsv_to_rgb_spec(hsv).b),
{
    let u = pow2(149) as int;
    let one = Single { bits: ONE };
    lemma_one();
    lemma_rest(f);
    law_times_one(hsv.s);
    lemma_pow2_unfold(126);
    lemma_pow2_unfold(127);
    lemma_pow2_unfold(128);
    lemma_pow2_unfold(129);
    lemma_pow2_unfold(130);
    lemma_pow2_unfold(131);
    lemma_pow2_pos(125);
    lemma_pow2_strictly_increases(129, 149);
    assert(i == 0 || i == 1 || i == 2 || i == 3 || i == 4 || i == 5 || i == 6);
    let (dr, dg, db) = (dip(t, 5), dip(t, 3), dip(t, 1));
    lemma_pure(hsv.v, hsv.s, dr);
    lemma_pure(hsv.v, hsv.s, dg);
    lemma_pure(hsv.v, hsv.s, db);
    let q = f.value();
    assert(u * u * pow2(131) == 2 * (u * u * pow2(130)) && u * u * pow2(130) >= 0)
        by (nonlinear_arith)
        requires
            pow2(131) == 2 * pow2(130),
            pow2(130) >= 0,
            u > 0,
    ;
    if i == 0 || i == 6 {
        assert(size(dr) <= pow2(129) && size(g.value() - dg) <= pow2(129) && size(u - db) <= pow2(
            129,
        ));
        lemma_toned(hsv.v, hsv.s, g, dg);
        lemma_toned(hsv.v, hsv.s, one, db);
    } else if i == 1 {
        assert(size(q - dr) <= pow2(129) && size(dg) <= pow2(129) && size(u - db) <= pow2(129));
        lemma_toned(hsv.v, hsv.s, f, dr);
        lemma_toned(hsv.v, hsv.s, one, db);
    } else if i == 2 {
        assert(size(u - dr) <= pow2(129) && size(dg) <= pow2(129) && size(g.value() - db) <= pow2(
            129,
        ));
        lemma_toned(hsv.v, hsv.s, one, dr);
        lemma_toned(hsv.v, hsv.s, g, db);
    } else if i == 3 {
        assert(size(u - dr) <= pow2(129) && size(q - dg) <= pow2(129) && size(db) <= pow2(129));
        lemma_toned(hsv.v, hsv.s, one, dr);
        lemma_toned(hsv.v, hsv.s, f, dg);
    } else if i == 4 {
        assert(size(g.value() - dr) <= pow2(129) && size(u - dg) <= pow2(129) && size(db) <= pow2(
            129,
        ));
        lemma_toned(hsv.v, hsv.s, g, dr);
        lemma_toned(hsv.v, hsv.s, one, dg);
    } else {
        assert(size(dr) <= pow2(129) && size(u - dg) <= pow2(129) && size(q - db) <= pow2(129));
        lemma_toned(hsv.v, hsv.s, one, dg);
        lemma_toned(hsv.v, hsv.s, f, db);
    }
}

/// A channel that loses nothing.
proof fn lemma_pure(v: Single, s: Single, d: int)
    requires
        proper(v),
        proper(s),
        0 <= d,
    ensures
        ({
            let u = pow2(149) as int;
            d <= pow2(129) ==> size(u * u * v.value() - v.value() * (u * u - s.value() * d)) <= u * u
                * pow2(130)
        }),
{
    let u = pow2(149) as int;
    let (vv, sv) = (v.value(), s.value());
    lemma_one();
    lemma_pow2_unfold(130);
    if d <= pow2(129) {
        assert(u * u * vv - vv * (u * u - sv * d) == (vv * sv) * d) by (nonlinear_arith);
        assert(0 <= vv * sv <= u * u) by (nonlinear_arith)
            requires
                0 <= vv <= u,
                0 <= sv <= u,
        ;
        let vs = vv * sv;
        assert(0 <= vs * d <= (u * u) * pow2(130)) by (nonlinear_arith)
            requires
                0 <= vs <= u * u,
                0 <= d <= pow2(130),
        ;
    }
}

/// One channel of a colour from its hue, saturation and value: `lost` is about
/// what the hue takes, so that `spread * lost` is about how far the channel is
/// below the greatest.
proof fn lemma_tone_back(m: int, s: int, spread: int, d: int, lost: int, c: int)
    requires
        0 <= c <= m <= pow2(149),
        0 <= s,
        0 <= spread <= pow2(149),
        0 <= d <= pow2(149),
        size(s * m - spread * pow2(149)) <= pow2(149) * pow2(127),
        size(d - lost) <= pow2(130),
        size(spread * lost - (m - c) * pow2(149)) <= pow2(149) * pow2(130),
    ensures
        ({
            let u = pow2(149) as int;
            size(u * u * c - m * (u * u - s * d)) <= u * u * pow2(132)
        }),
{
    let u = pow2(149) as int;
    let w = pow2(127) as int;
    lemma_one();
    lemma_pow2_unfold(128);
    lemma_pow2_unfold(129);
    lemma_pow2_unfold(130);
    lemma_pow2_unfold(131);
    lemma_pow2_unfold(132);
    lemma_pow2_pos(127);
    let e1 = s * m - spread * u;
    let e2 = d - lost;
    let e3 = spread * lost - (m - c) * u;
    assert(u * u * c - m * (u * u - s * d) == e1 * d + u * (spread * e2) + u * e3) by {
        let (sm, sd) = (s * m, spread * d);
        assert(m * (u * u - s * d) == m * (u * u) - sm * d) by (nonlinear_arith)
            requires
                sm == s * m,
        ;
        assert(e1 * d == sm * d - u * sd) by (nonlinear_arith)
            requires
                e1 == sm - spread * u,
                sd == spread * d,
        ;
        assert(spread * e2 == sd - spread * lost) by (nonlinear_arith)
            requires
                e2 == d - lost,
                sd == spread * d,
        ;
        let sl = spread * lost;
        assert(u * (sd - sl) == u * sd - u * sl) by (nonlinear_arith);
        assert(u * e3 == u * sl - (m - c) * (u * u)) by (nonlinear_arith)
            requires
                e3 == sl - (m - c) * u,
        ;
        assert((m - c) * (u * u) == m * (u * u) - u * u * c) by (nonlinear_arith);
    }
    assert(size(e1 * d) <= u * (u * w)) by (nonlinear_arith)
        requires
            size(e1) <= u * w,
            size(e1) == (if e1 < 0 {
                -e1
            } else {
                e1
            }),
            size(e1 * d) == (if e1 * d < 0 {
                -(e1 * d)
            } else {
                e1 * d
            }),
            0 <= d <= u,
    ;
    assert(size(u * (spread * e2)) <= u * (u * (8 * w))) by (nonlinear_arith)
        requires
            size(e2) <= 8 * w,
            size(e2) == (if e2 < 0 {
                -e2
            } else {
                e2
            }),
            size(u * (spread * e2)) == (if u * (spread * e2) < 0 {
                -(u * (spread * e2))
            } else {
                u * (spread * e2)
            }),
            0 <= spread <= u,
            u > 0,
    ;
    assert(size(u * e3) <= u * (u * (8 * w))) by (nonlinear_arith)
        requires
            size(e3) <= u * (8 * w),
            size(e3) == (if e3 < 0 {
                -e3
            } else {
                e3
            }),
            size(u * e3) == (if u * e3 < 0 {
                -(u * e3)
            } else {
                u * e3
            }),
            u > 0,
    ;
    let q = u * u * w;
    assert(u * (u * w) == q && u * (u * (8 * w)) == 8 * q && u * u * (32 * w) == 32 * q)
        by (nonlinear_arith)
        requires
            q == u * u * w,
    ;
}

/// Whether a channel comes back from hue, saturation and value, to within a
/// part in 2^17.
pub open spec fn comes_back(hsv: Hsv, turn: int, c: Single) -> bool {
    let u = pow2(149) as int;
    let lost = hsv.s.value() * dip(6 * hsv.h.value(), turn);
    size(u * u * c.value() - hsv.v.value() * (u * u - lost)) <= u * u * pow2(132)
}

/// The quotient of a difference of two channels and the spread of all.
proof fn lemma_way_round(x: Single, y: Single, top: Single, low: Single)
    requires
        proper(x),
        proper(y),
        proper(top),
        proper(low),
        low.value() <= x.value() <= top.value(),
        low.value() <= y.value() <= top.value(),
        top.minus_spec(low).value() >= pow2(130),
    ensures
        ({
            let u = pow2(149) as int;
            let spread = top.minus_spec(low);
            let q = x.minus_spec(y).over_spec(spread);
            &&& proper(spread)
            &&& size(spread.value() - (top.value() - low.value())) <= pow2(125)
            &&& q.finite()
            &&& size(q.value()) <= u
            &&& x.value() >= y.value() ==> q.value() >= 0
            &&& x.value() < y.value() ==> q.value() <= 0
            &&& size(spread.value() * q.value() - (x.value() - y.value()) * u) <= u * pow2(127)
        }),
{
    let u = pow2(149) as int;
    let w = pow2(125) as int;
    let spread = top.minus_spec(low);
    let d = x.minus_spec(y);
    let q = d.over_spec(spread);
    lemma_one();
    lemma_pow2_unfold(126);
    lemma_pow2_unfold(127);
    lemma_pow2_unfold(150);
    lemma_pow2_pos(125);
    lemma_pow2_pos(130);
    lemma_pow2_adds(24, 125);
    assert(pow2(24) == 0x100_0000) by {
        lemma2_to64();
    }
    lemma_negate(low);
    lemma_negate(y);
    lemma_negate(x);
    lemma_plus_near(top, low.negate_spec(), 150);
    lemma_plus_near(x, y.negate_spec(), 150);
    lemma_plus_value(top, low.negate_spec());
    lemma_plus_value(x, y.negate_spec());
    let full = top.value() - low.value();
    let dv = x.value() - y.value();
    lemma_rounded_monotone(full, u);
    lemma_rounded_exact(Single { bits: ONE });
    lemma_rounded_exact(Single { bits: 0 });
    lemma_rounded_monotone(dv, full);
    lemma_rounded_monotone(-full, dv);
    assert(rounded(-full) == -rounded(full));
    if dv >= 0 {
        lemma_rounded_monotone(0, dv);
    } else {
        lemma_rounded_monotone(dv, 0);
    }
    let sv = spread.value();
    assert(size(d.value()) <= sv);
    lemma_at_most_one(d, spread);
    lemma_way_errors(d, spread, dv);
}

/// A quotient of a number by one that is no less in magnitude.
proof fn lemma_at_most_one(d: Single, spread: Single)
    requires
        d.finite(),
        spread.finite(),
        spread.value() > 0,
        size(d.value()) <= spread.value(),
    ensures
        ({
            let q = d.over_spec(spread);
            &&& q.finite()
            &&& size(q.value()) <= pow2(149)
            &&& d.value() >= 0 ==> q.value() >= 0
            &&& d.value() <= 0 ==> q.value() <= 0
        }),
{
    let q = d.over_spec(spread);
    lemma_one();
    lemma_no_units(spread);
    lemma_no_units(d);
    lemma_no_units(q);
    reveal(Single::over_spec);
    let n = d.units() * pow2(149);
    assert(n <= pow2(149) * spread.units()) by (nonlinear_arith)
        requires
            n == d.units() * pow2(149),
            d.units() <= spread.units(),
            pow2(149) > 0,
    ;
    lemma_nearest_at_most(n, spread.units(), ONE as nat);
    lemma_infinity_units();
    if d.units() == 0 {
        assert(0 * pow2(149) == 0);
        lemma_nearest_at_most(0, spread.units(), 0);
    }
}

/// How far the quotient can be off.
proof fn lemma_way_errors(d: Single, spread: Single, dv: int)
    requires
        d.finite(),
        proper(spread),
        spread.value() > 0,
        size(d.value()) <= spread.value(),
        size(d.value() - dv) <= pow2(125),
        d.over_spec(spread).finite(),
    ensures
        size(spread.value() * d.over_spec(spread).value() - dv * pow2(149)) <= pow2(149) * pow2(
            127,
        ),
{
    let u = pow2(149) as int;
    let w = pow2(125) as int;
    let q = d.over_spec(spread);
    let sv = spread.value();
    lemma_one();
    lemma_pow2_unfold(126);
    lemma_pow2_unfold(127);
    lemma_pow2_pos(125);
    lemma_pow2_adds(24, 125);
    assert(pow2(24) == 0x100_0000) by {
        lemma2_to64();
    }
    lemma_over_close(d, spread);
    let (qv, e) = (q.value(), d.value() - dv);
    let du = d.value() * u;
    assert(size(qv * sv - du) * 0x100_0000 <= size(du) + 0x80_0000 * sv);
    assert(size(du) <= u * u) by (nonlinear_arith)
        requires
            du == d.value() * u,
            size(d.value()) <= u,
            size(d.value()) == (if d.value() < 0 {
                -d.value()
            } else {
                d.value()
            }),
            size(du) == (if du < 0 {
                -du
            } else {
                du
            }),
            u > 0,
    ;
    assert(u * u == 0x100_0000 * (u * w)) by (nonlinear_arith)
        requires
            u == 0x100_0000 * w,
    ;
    assert(u <= u * w) by (nonlinear_arith)
        requires
            w >= 1,
            u > 0,
    ;
    assert(sv * qv == qv * sv) by (nonlinear_arith);
    assert(du == dv * u + e * u) by (nonlinear_arith)
        requires
            du == d.value() * u,
            e == d.value() - dv,
    ;
    assert(size(e * u) <= u * w) by (nonlinear_arith)
        requires
            -w <= e <= w,
            u > 0,
            size(e * u) == (if e * u < 0 {
                -(e * u)
            } else {
                e * u
            }),
    ;
    assert(u * (4 * w) == 4 * (u * w)) by (nonlinear_arith);
}

/// Where a hue lies on the circle, from the sextant and the way round in it.
proof fn lemma_place(q: Single, n: int, start: Single)
    requires
        q.finite(),
        size(q.value()) <= pow2(149),
        n == 0 || n == 2 || n == 4,
        n > 0 ==> start.finite() && start.value() == n * pow2(149),
    ensures
        ({
            let u = pow2(149) as int;
            let zero = Single { bits: 0 };
            let six = Single { bits: SIX };
            let sixths = if n == 0 {
                q
            } else {
                start.plus_spec(q)
            };
            let wound = if sixths.lt_spec(zero) {
                sixths.plus_spec(six)
            } else {
                sixths
            };
            let h = wound.over_spec(six);
            let place = if n == 0 && q.value() < 0 {
                6 * u + q.value()
            } else {
                n * u + q.value()
            };
            &&& h.finite()
            &&& 0 <= h.value() <= u
            &&& size(6 * h.value() - place) <= pow2(129)
        }),
{
    let u = pow2(149) as int;
    let w = pow2(125) as int;
    let zero = Single { bits: 0 };
    let six = Single { bits: SIX };
    let sixths = if n == 0 {
        q
    } else {
        start.plus_spec(q)
    };
    let wound = if sixths.lt_spec(zero) {
        sixths.plus_spec(six)
    } else {
        sixths
    };
    let h = wound.over_spec(six);
    lemma_one();
    lemma_known(SIX, 0xc0_0000, 128);
    lemma_pow2_adds(21, 128);
    lemma_pow2_adds(24, 125);
    lemma_pow2_unfold(126);
    lemma_pow2_unfold(127);
    lemma_pow2_unfold(128);
    lemma_pow2_unfold(129);
    lemma_pow2_unfold(150);
    lemma_pow2_unfold(151);
    lemma_pow2_unfold(152);
    lemma_pow2_pos(125);
    assert(pow2(21) == 0x20_0000 && pow2(24) == 0x100_0000) by {
        lemma2_to64();
    }
    assert(six.value() == 6 * u);
    let place = if n == 0 && q.value() < 0 {
        6 * u + q.value()
    } else {
        n * u + q.value()
    };
    assert(n * u == (if n == 0 {
        0
    } else if n == 2 {
        2 * u
    } else {
        4 * u
    }));
    if n > 0 {
        lemma_plus_near(start, q, 152);
        lemma_plus_value(start, q);
        lemma_rounded_monotone(0, start.value() + q.value());
        lemma_rounded_monotone(start.value() + q.value(), 6 * u);
    } else if q.value() < 0 {
        lemma_plus_near(q, six, 152);
        lemma_plus_value(q, six);
        lemma_rounded_monotone(0, q.value() + six.value());
        lemma_rounded_monotone(q.value() + six.value(), 6 * u);
    }
    lemma_rounded_exact(zero);
    lemma_rounded_exact(six);
    let wv = wound.value();
    assert(wound.finite() && 0 <= wv <= 6 * u);
    assert(size(wv - place) <= 4 * w);
    // Divided by six.
    lemma_over_order(wound, six, six);
    lemma_no_units(six);
    assert(h.finite() && h.value() <= u) by {
        reveal(Single::over_spec);
        lemma_no_units(wound);
        let k = wound.units() * pow2(149);
        assert(k <= pow2(149) * six.units()) by (nonlinear_arith)
            requires
                k == wound.units() * pow2(149),
                wound.units() <= six.units(),
                pow2(149) > 0,
        ;
        lemma_nearest_at_most(k, six.units(), ONE as nat);
        lemma_infinity_units();
    }
    lemma_over_close(wound, six);
    let hv = h.value();
    assert(hv * (6 * u) == u * (6 * hv)) by (nonlinear_arith);
    assert(wv * u == u * wv) by (nonlinear_arith);
    let e = 6 * hv - wv;
    assert(u * (6 * hv) - u * wv == u * e) by (nonlinear_arith)
        requires
            e == 6 * hv - wv,
    ;
    assert(size(u * e) == u * size(e)) by {
        assert(u * e < 0 <==> e < 0) by (nonlinear_arith)
            requires
                u > 0,
        ;
        assert(u * (-e) == -(u * e)) by (nonlinear_arith);
    }
    assert(u * wv >= 0) by (nonlinear_arith)
        requires
            wv >= 0,
            u > 0,
    ;
    assert(0x100_0000 * size(e) <= wv + 0x80_0000 * 6) by (nonlinear_arith)
        requires
            0x100_0000 * (u * size(e)) <= u * wv + 0x80_0000 * (6 * u),
            u > 0,
    ;
}

/// A channel that is the greatest, the next one round the circle and the one
/// before it, and the hue, saturation and value that they make.
proof fn lemma_sector(
    top: Single,
    next: Single,
    prev: Single,
    low: Single,
    n: int,
    start: Single,
    hsv: Hsv,
    turn: int,
    turn_next: int,
    turn_prev: int,
)
    requires
        proper(top),
        proper(next),
        proper(prev),
        proper(low),
        next.value() <= top.value(),
        prev.value() <= top.value(),
        low.value() == next.value() || low.value() == prev.value(),
        low.value() <= next.value(),
        low.value() <= prev.value(),
        top.minus_spec(low).value() >= pow2(131),
        n == 0 && turn == 5 && turn_next == 3 && turn_prev == 1 || n == 2 && turn == 3 && turn_next
            == 1 && turn_prev == 5 || n == 4 && turn == 1 && turn_next == 5 && turn_prev == 3,
        n > 0 ==> start.finite() && start.value() == n * pow2(149),
        hsv.v.value() == top.value(),
        hsv.s == top.minus_spec(low).over_spec(hsv.v),
        hsv.v.finite(),
        ({
            let zero = Single { bits: 0 };
            let six = Single { bits: SIX };
            let q = next.minus_spec(prev).over_spec(top.minus_spec(low));
            let sixths = if n == 0 {
                q
            } else {
                start.plus_spec(q)
            };
            let wound = if sixths.lt_spec(zero) {
                sixths.plus_spec(six)
            } else {
                sixths
            };
            hsv.h == wound.over_spec(six)
        }),
    ensures
        comes_back(hsv, turn, top),
        comes_back(hsv, turn_next, next),
        comes_back(hsv, turn_prev, prev),
{
    let u = pow2(149) as int;
    let spread = top.minus_spec(low);
    let q = next.minus_spec(prev).over_spec(spread);
    lemma_one();
    lemma_pow2_unfold(126);
    lemma_pow2_unfold(127);
    lemma_pow2_unfold(128);
    lemma_pow2_unfold(129);
    lemma_pow2_unfold(130);
    lemma_pow2_unfold(131);
    lemma_pow2_pos(125);
    lemma_pow2_strictly_increases(131, 149);
    lemma_way_round(next, prev, top, low);
    lemma_place(q, n, start);
    let (m, sv, qv) = (top.value(), spread.value(), q.value());
    // The saturation.
    assert(m >= pow2(130));
    lemma_over_order(spread, spread, hsv.v);
    let s = hsv.s.value();
    assert(s >= 0);
    assert(hsv.s.finite() && size(s * m - sv * u) <= u * pow2(127)) by {
        lemma_pow2_adds(200, 130);
        lemma_pow2_adds(149, 149);
        lemma_pow2_strictly_increases(298, 330);
        assert(sv * u <= u * u) by (nonlinear_arith)
            requires
                0 <= sv <= u,
                u > 0,
        ;
        assert(pow2(200) * pow2(130) <= pow2(200) * m) by (nonlinear_arith)
            requires
                pow2(130) <= m,
                pow2(200) >= 0,
        ;
        lemma_over_finite(spread, hsv.v, 200);
        lemma_over_close(spread, hsv.v);
        lemma_pow2_adds(24, 125);
        assert(pow2(24) == 0x100_0000) by {
            lemma2_to64();
        }
        let w = pow2(125) as int;
        assert(u * u == 0x100_0000 * (u * w)) by (nonlinear_arith)
            requires
                u == 0x100_0000 * w,
        ;
        assert(u <= u * w) by (nonlinear_arith)
            requires
                w >= 1,
                u > 0,
        ;
        assert(sv * u >= 0) by (nonlinear_arith)
            requires
                sv >= 0,
                u > 0,
        ;
        assert(u * (4 * w) == 4 * (u * w)) by (nonlinear_arith);
    }
    let place = 6 * hsv.h.value();
    let (d0, d1, d2) = (dip(place, turn), dip(place, turn_next), dip(place, turn_prev));
    let e = sv - (m - low.value());
    let sq = sv * qv;
    assert(sv * u == (m - low.value()) * u + u * e) by (nonlinear_arith)
        requires
            e == sv - (m - low.value()),
    ;
    assert(size(u * e) <= u * pow2(125)) by (nonlinear_arith)
        requires
            size(e) <= pow2(125),
            size(e) == (if e < 0 {
                -e
            } else {
                e
            }),
            size(u * e) == (if u * e < 0 {
                -(u * e)
            } else {
                u * e
            }),
            u > 0,
    ;
    let w = pow2(125) as int;
    assert(u * pow2(125) == u * w && u * pow2(127) == 4 * (u * w) && u * pow2(130) == 32 * (u * w))
        by (nonlinear_arith)
        requires
            w == pow2(125),
            pow2(127) == 4 * w,
            pow2(130) == 32 * w,
    ;
    assert(u * w >= 0) by (nonlinear_arith)
        requires
            u > 0,
            w > 0,
    ;
    assert(n * u == (if n == 0 {
        0
    } else if n == 2 {
        2 * u
    } else {
        4 * u
    }));
    let (lo, hi) = (next.value(), prev.value());
    assert(sv * 0 == 0);
    assert((m - m) * u == 0);
    if qv >= 0 && lo >= hi {
        assert(size(d0) <= pow2(130) && size(d1 - (u - qv)) <= pow2(130) && size(d2 - u) <= pow2(
            130,
        ));
        assert(sv * (u - qv) == sv * u - sq) by (nonlinear_arith)
            requires
                sq == sv * qv,
        ;
        assert((lo - hi) * u == (m - hi) * u - (m - lo) * u) by (nonlinear_arith);
        lemma_tone_back(m, s, sv, d0, 0, m);
        lemma_tone_back(m, s, sv, d1, u - qv, lo);
        lemma_tone_back(m, s, sv, d2, u, hi);
    } else {
        assert(size(d0) <= pow2(130) && size(d1 - u) <= pow2(130) && size(d2 - (u + qv)) <= pow2(
            130,
        ));
        assert(sv * (u + qv) == sv * u + sq) by (nonlinear_arith)
            requires
                sq == sv * qv,
        ;
        assert((lo - hi) * u == (m - hi) * u - (m - lo) * u) by (nonlinear_arith);
        lemma_tone_back(m, s, sv, d0, 0, m);
        lemma_tone_back(m, s, sv, d1, u, lo);
        lemma_tone_back(m, s, sv, d2, u + qv, hi);
    }
}

/// Hue, saturation and value of a colour that is not grey give the colour back:
/// the value is its greatest channel, and what the hue takes of every channel,
/// times the saturation, is how far that channel is below it.
pub proof fn law_colour_comes_back_from_its_hue(r: Single, g: Single, b: Single)
    requires
        proper(r),
        proper(g),
        proper(b),
        ({
            let hsv = rgb_to_hsv_spec(r, g, b);
            hsv.s.value() != 0
        }),
    ensures
        ({
            let hsv = rgb_to_hsv_spec(r, g, b);
            &&& r.value() <= hsv.v.value() && g.value() <= hsv.v.value() && b.value()
                <= hsv.v.value()
            &&& hsv.v.value() == r.value() || hsv.v.value() == g.value() || hsv.v.value()
                == b.value()
            &&& comes_back(hsv, 5, r)
            &&& comes_back(hsv, 3, g)
            &&& comes_back(hsv, 1, b)
        }),
{
    let hsv = rgb_to_hsv_spec(r, g, b);
    lemma_one();
    assert(unit(r) == r && unit(g) == g && unit(b) == b);
    let max = r.max_spec(g).max_spec(b);
    let min = r.min_spec(g).min_spec(b);
    let spread = max.minus_spec(min);
    lemma_known(0x38d1_b717, 0xd1_b717, 112);
    lemma_pow2_adds(19, 112);
    lemma_pow2_pos(112);
    assert(pow2(19) == 0x8_0000) by {
        lemma2_to64();
    }
    assert(spread.value() >= pow2(131));
    lemma_known(0x4000_0000, 0x80_0000, 127);
    lemma_known(0x4080_0000, 0x80_0000, 128);
    lemma_pow2_adds(22, 127);
    lemma_pow2_adds(21, 128);
    assert(pow2(22) == 0x40_0000 && pow2(21) == 0x20_0000) by {
        lemma2_to64();
    }
    let two = Single { bits: TWO };
    let four = Single { bits: FOUR };
    lemma_negate(min);
    lemma_same_difference(max, r, min);
    lemma_same_difference(max, g, min);
    lemma_same_difference(max, b, min);
    if r.same_spec(max) {
        lemma_sector(r, g, b, min, 0, two, hsv, 5, 3, 1);
    } else if g.same_spec(max) {
        lemma_sector(g, b, r, min, 2, two, hsv, 3, 1, 5);
    } else {
        lemma_sector(b, r, g, min, 4, four, hsv, 1, 5, 3);
    }
}

/// Numbers of the same value give the same difference to a number that is not
/// the same.
proof fn lemma_same_difference(a: Single, b: Single, c: Single)
    requires
        proper(a),
        proper(b),
        proper(c),
    ensures
        a.value() == b.value() && a.value() > 0 ==> a == b,
{
    if a.value() == b.value() && a.value() > 0 {
        lemma_same_value(a, b);
    }
}

} // verus!
