//! What the colour settings move a colour by.
//!
//! Values are in units of 2^-149, so that one is 2^149.
use crate::color::{hsl_to_rgb_spec, rgb_to_hsl_spec, rgb_to_hsv_spec, unit, Hsl, Hsv};
use crate::dab::{hsl_moved, hsv_moved};
use crate::hues::{law_channels_dip_with_the_hue, lemma_hue_itself, tone_of};
use crate::lightness::lemma_numbers;
use crate::means::{lemma_proper_product, lemma_rest, lemma_times_close, proper, size};
use crate::placing::product;
use crate::range::{
    lemma_no_units, lemma_one, lemma_plus_near, lemma_plus_value, lemma_rounded_exact,
    lemma_rounded_monotone, lemma_times_near, lemma_times_near_signed,
};
use crate::setting::BrushSetting;
use crate::single::{Single, ONE, TWO};
use crate::values::SettingValues;
use vstd::arithmetic::power2::*;
use vstd::prelude::*;

verus! {

/// A number held to a range.
pub open spec fn clip(v: int, top: int) -> int {
    if v < 0 {
        0
    } else if v > top {
        top
    } else {
        v
    }
}

/// A sum that is held to the unit interval.
pub proof fn lemma_held_sum(a: Single, b: Single)
    requires
        proper(a),
        b.finite(),
        size(b.value()) < 3 * pow2(149),
    ensures
        proper(unit(a.plus_spec(b))),
        size(unit(a.plus_spec(b)).value() - clip(a.value() + b.value(), pow2(149) as int)) <= pow2(
            127,
        ),
{
    let u = pow2(149) as int;
    lemma_one();
    lemma_pow2_unfold(126);
    lemma_pow2_unfold(127);
    lemma_pow2_unfold(150);
    lemma_pow2_unfold(151);
    lemma_pow2_pos(125);
    lemma_plus_near(a, b, 151);
    lemma_plus_value(a, b);
    lemma_rounded_exact(Single { bits: 0 });
    lemma_rounded_exact(Single { bits: ONE });
    let v = a.value() + b.value();
    if v >= 0 {
        lemma_rounded_monotone(0, v);
    } else {
        lemma_rounded_monotone(v, 0);
    }
    if v <= u {
        lemma_rounded_monotone(v, u);
    } else {
        lemma_rounded_monotone(u, v);
    }
}

/// Whether `t` is a colour moved by the settings: its hue by the change of hue,
/// its value by the change of value, and its saturation by the change of
/// saturation times saturation and value, each held to its range.
pub open spec fn moved_by(hsv: Hsv, dh: int, ds: int, dv: int, t: Hsv) -> bool {
    let u = pow2(149) as int;
    let (h, s, v) = (hsv.h.value(), hsv.s.value(), hsv.v.value());
    let cube = u * u * u;
    &&& proper(t.h) && proper(t.s) && proper(t.v)
    &&& size(t.h.value() - (h + dh)) <= pow2(126)
    &&& size(t.v.value() - clip(v + dv, u)) <= pow2(127)
    &&& size(u * u * t.s.value() - clip(u * u * s + s * v * ds, cube)) <= u * u * pow2(129)
}

/// A colour that the settings move in hue, saturation and value is that of the
/// moved hue, saturation and value; and settings of zero leave it alone.
pub proof fn law_settings_move_hue_saturation_and_value(
    c: (Single, Single, Single),
    sv: SettingValues,
)
    requires
        !sv.get(BrushSetting::ChangeColorH).nan(),
        !sv.get(BrushSetting::ChangeColorHsvS).nan(),
        !sv.get(BrushSetting::ChangeColorV).nan(),
        sv.get(BrushSetting::ChangeColorH).finite(),
        sv.get(BrushSetting::ChangeColorHsvS).finite() && size(
            sv.get(BrushSetting::ChangeColorHsvS).value(),
        ) <= pow2(149),
        sv.get(BrushSetting::ChangeColorV).finite() && size(
            sv.get(BrushSetting::ChangeColorV).value(),
        ) <= pow2(149),
        ({
            let hsv = rgb_to_hsv_spec(c.0, c.1, c.2);
            let h = hsv.h.value() + sv.get(BrushSetting::ChangeColorH).value();
            &&& proper(hsv.h) && proper(hsv.s) && proper(hsv.v)
            &&& 0 < h && h + pow2(126) < pow2(149)
        }),
    ensures
        ({
            let hsv = rgb_to_hsv_spec(c.0, c.1, c.2);
            let (dh, ds, dv) = (
                sv.get(BrushSetting::ChangeColorH).value(),
                sv.get(BrushSetting::ChangeColorHsvS).value(),
                sv.get(BrushSetting::ChangeColorV).value(),
            );
            let out = hsv_moved(c, sv);
            &&& dh == 0 && ds == 0 && dv == 0 ==> out == c
            &&& dh != 0 || ds != 0 || dv != 0 ==> exists|t: Hsv|
                {
                    &&& moved_by(hsv, dh, ds, dv, t)
                    &&& #[trigger] tone_of(t, 5, out.0)
                    &&& tone_of(t, 3, out.1)
                    &&& tone_of(t, 1, out.2)
                }
        }),
{
    let u = pow2(149) as int;
    let one = Single { bits: ONE };
    let zero = Single { bits: 0 };
    let hsv = rgb_to_hsv_spec(c.0, c.1, c.2);
    let dh = sv.get(BrushSetting::ChangeColorH);
    let ds = sv.get(BrushSetting::ChangeColorHsvS);
    let dv = sv.get(BrushSetting::ChangeColorV);
    lemma_one();
    if dh.value() != 0 || ds.value() != 0 || dv.value() != 0 {
        let t = Hsv {
            h: hsv.h.plus(dh).rem_euclid(one),
            s: unit(hsv.s.plus(hsv.s.times(hsv.v).times(ds))),
            v: unit(hsv.v.plus(dv)),
        };
        lemma_moved_hue(hsv.h, dh);
        lemma_moved_saturation(hsv.s, hsv.v, ds);
        lemma_held_sum(hsv.v, dv);
        law_channels_dip_with_the_hue(t);
        assert(moved_by(hsv, dh.value(), ds.value(), dv.value(), t));
        assert(tone_of(t, 5, hsv_moved(c, sv).0));
    }
}

/// A moved hue that stays within the circle.
proof fn lemma_moved_hue(h: Single, dh: Single)
    requires
        proper(h),
        dh.finite(),
        0 < h.value() + dh.value(),
        h.value() + dh.value() + pow2(126) < pow2(149),
    ensures
        ({
            let t = h.plus(dh).rem_euclid(Single { bits: ONE });
            &&& proper(t)
            &&& !t.negative()
            &&& t.value() < pow2(149)
            &&& size(t.value() - (h.value() + dh.value())) <= pow2(126)
        }),
{
    let s = h.plus(dh);
    lemma_one();
    lemma_pow2_unfold(126);
    lemma_pow2_unfold(127);
    lemma_pow2_unfold(150);
    lemma_pow2_pos(125);
    lemma_plus_near(h, dh, 150);
    assert(!s.negative()) by {
        reveal(Single::plus_spec);
    }
    lemma_hue_itself(s);
}

/// A moved saturation.
proof fn lemma_moved_saturation(s: Single, v: Single, ds: Single)
    requires
        proper(s),
        proper(v),
        ds.finite(),
        size(ds.value()) <= pow2(149),
    ensures
        ({
            let u = pow2(149) as int;
            let t = unit(s.plus(s.times(v).times(ds)));
            let want = u * u * s.value() + s.value() * v.value() * ds.value();
            &&& proper(t)
            &&& size(u * u * t.value() - clip(want, u * u * u)) <= u * u * pow2(129)
        }),
{
    let u = pow2(149) as int;
    let w = pow2(126) as int;
    let p = s.times(v);
    let q = p.times(ds);
    lemma_one();
    lemma_proper_product(s, v);
    lemma_pow2_unfold(127);
    lemma_pow2_unfold(128);
    lemma_pow2_unfold(129);
    lemma_pow2_unfold(150);
    lemma_pow2_pos(126);
    lemma_pow2_strictly_increases(126, 149);
    let (sv, vv, dv, pv) = (s.value(), v.value(), ds.value(), p.value());
    let pd = pv * dv;
    assert(-(u * u) <= pd <= u * u) by (nonlinear_arith)
        requires
            pd == pv * dv,
            0 <= pv <= u,
            -u <= dv <= u,
    ;
    assert(u * u < pow2(150) * pow2(149)) by (nonlinear_arith)
        requires
            pow2(150) == 2 * u,
            pow2(149) == u,
            u > 0,
    ;
    lemma_times_near_signed(p, ds, 150);
    let qv = q.value();
    assert(size(u * qv - pd) <= u * w) by (nonlinear_arith)
        requires
            2 * (qv * u) <= 2 * pd + u * w,
            2 * pd <= 2 * (qv * u) + u * w,
            size(u * qv - pd) == (if u * qv - pd < 0 {
                -(u * qv - pd)
            } else {
                u * qv - pd
            }),
            u > 0,
            w > 0,
    ;
    assert(size(qv) <= 2 * u) by (nonlinear_arith)
        requires
            -(u * w) <= u * qv - pd <= u * w,
            -(u * u) <= pd <= u * u,
            w <= u,
            size(qv) == (if qv < 0 {
                -qv
            } else {
                qv
            }),
            u > 0,
    ;
    lemma_held_sum(s, q);
    let t = unit(s.plus(q)).value();
    let (e1, e2) = (u * pv - sv * vv, u * qv - pd);
    let svd = sv * vv * dv;
    assert(u * u * qv - svd == u * e2 + e1 * dv) by (nonlinear_arith)
        requires
            e1 == u * pv - sv * vv,
            e2 == u * qv - pv * dv,
            svd == sv * vv * dv,
            pd == pv * dv,
    ;
    assert(size(u * e2) <= u * (u * w)) by (nonlinear_arith)
        requires
            size(e2) <= u * w,
            size(e2) == (if e2 < 0 {
                -e2
            } else {
                e2
            }),
            size(u * e2) == (if u * e2 < 0 {
                -(u * e2)
            } else {
                u * e2
            }),
            u > 0,
    ;
    assert(size(e1 * dv) <= u * (u * w)) by (nonlinear_arith)
        requires
            size(e1) <= u * w,
            size(e1) == (if e1 < 0 {
                -e1
            } else {
                e1
            }),
            size(e1 * dv) == (if e1 * dv < 0 {
                -(e1 * dv)
            } else {
                e1 * dv
            }),
            -u <= dv <= u,
            u > 0,
    ;
    let uuw = u * u * w;
    assert(u * (u * w) == uuw && u * u * (2 * w) == 2 * uuw && u * u * (8 * w) == 8 * uuw)
        by (nonlinear_arith)
        requires
            uuw == u * u * w,
    ;
    let want = u * u * sv + svd;
    let x = sv + qv;
    assert(u * u * x == u * u * sv + u * u * qv) by (nonlinear_arith)
        requires
            x == sv + qv,
    ;
    assert(size(u * u * x - want) <= 2 * uuw);
    // Held alike.
    let k = clip(x, u);
    let d = t - k;
    assert(u * u * t == u * u * k + u * u * d) by (nonlinear_arith)
        requires
            d == t - k,
    ;
    assert(size(u * u * d) <= u * u * (2 * w)) by (nonlinear_arith)
        requires
            size(d) <= 2 * w,
            size(d) == (if d < 0 {
                -d
            } else {
                d
            }),
            size(u * u * d) == (if u * u * d < 0 {
                -(u * u * d)
            } else {
                u * u * d
            }),
            u > 0,
    ;
    assert(u * u * k == clip(u * u * x, u * u * u)) by {
        assert(u * u > 0) by (nonlinear_arith)
            requires
                u > 0,
        ;
        let uu = u * u;
        assert(x < 0 ==> uu * x < 0) by (nonlinear_arith)
            requires
                uu > 0,
        ;
        assert(x >= 0 ==> uu * x >= 0) by (nonlinear_arith)
            requires
                uu > 0,
        ;
        assert(x > u ==> uu * x > uu * u) by (nonlinear_arith)
            requires
                uu > 0,
        ;
        assert(x <= u ==> uu * x <= uu * u) by (nonlinear_arith)
            requires
                uu > 0,
        ;
        assert(uu * 0 == 0);
    }
}

/// Whether `s` is a saturation moved by `ds` times the saturation and twice the
/// distance of the lightness `l` from the nearer of its ends, held to its range.
pub open spec fn saturation_by(from: Single, l: Single, ds: Single, s: Single) -> bool {
    let u = pow2(149) as int;
    exists|e: Single, p: Single, q: Single, r: Single|
        {
            &&& size(
                e.value() - (if 2 * l.value() <= u {
                    l.value()
                } else {
                    u - l.value()
                }),
            ) <= pow2(125)
            &&& #[trigger] product(from, e, p)
            &&& #[trigger] product(p, Single { bits: TWO }, q)
            &&& #[trigger] product(q, ds, r)
            &&& size(s.value() - clip(from.value() + r.value(), u)) <= pow2(127)
        }
}

/// A saturation that is moved with the lightness.
proof fn lemma_saturation(from: Single, l: Single, ds: Single)
    requires
        proper(from),
        proper(l),
        ds.finite(),
        size(ds.value()) <= pow2(149),
    ensures
        ({
            let one = Single { bits: ONE };
            let e = one.minus(l).abs().min(l.abs());
            let s = unit(from.plus(from.times(e).times(Single { bits: TWO }).times(ds)));
            proper(s) && saturation_by(from, l, ds, s)
        }),
{
    let u = pow2(149) as int;
    let one = Single { bits: ONE };
    let two = Single { bits: TWO };
    let e = one.minus(l).abs().min(l.abs());
    lemma_one();
    lemma_numbers();
    lemma_rest(l);
    lemma_pow2_unfold(126);
    lemma_pow2_pos(125);
    lemma_nearer_end(l);
    lemma_proper_product(from, e);
    lemma_times_close(from, e);
    let p = from.times(e);
    let (pv, tv) = (p.value(), two.value());
    assert(0 <= pv * tv <= 2 * (u * u) && 2 * (u * u) < pow2(151) * pow2(149)) by (nonlinear_arith)
        requires
            0 <= pv <= u,
            tv == 2 * u,
            pow2(151) == 4 * u,
            pow2(149) == u,
            u > 0,
    ;
    lemma_times_near(p, two, 151);
    lemma_times_close(p, two);
    let q = p.times(two);
    let (qv, dv, w) = (q.value(), ds.value(), pow2(126) as int);
    assert(qv <= 2 * u + w) by (nonlinear_arith)
        requires
            2 * (qv * u) <= 2 * (pv * tv) + u * (2 * w),
            pv * tv <= 2 * (u * u),
            u > 0,
    ;
    let qd = qv * dv;
    assert(-((2 * u + w) * u) <= qd <= (2 * u + w) * u && (2 * u + w) * u < pow2(151) * pow2(149))
        by (nonlinear_arith)
        requires
            qd == qv * dv,
            0 <= qv <= 2 * u + w,
            -u <= dv <= u,
            0 < w < u,
            pow2(151) == 4 * u,
            pow2(149) == u,
    ;
    assert((2 * u + w) * u == 2 * (u * u) + u * w) by (nonlinear_arith);
    lemma_times_near_signed(q, ds, 151);
    lemma_times_close(q, ds);
    let r = q.times(ds);
    let rv = r.value();
    assert(0x80_0000 * (u * w) == u * u) by (nonlinear_arith)
        requires
            u == 0x80_0000 * w,
    ;
    assert(u * (2 * w) == 2 * (u * w)) by (nonlinear_arith);
    assert(-(2 * u + 2 * w) <= rv <= 2 * u + 2 * w) by (nonlinear_arith)
        requires
            2 * (rv * u) <= 2 * qd + u * (2 * w),
            2 * qd <= 2 * (rv * u) + u * (2 * w),
            -((2 * u + w) * u) <= qd <= (2 * u + w) * u,
            u > 0,
    ;
    lemma_held_sum(from, r);
    assert(product(from, e, p) && product(p, two, q) && product(q, ds, r));
}

/// The distance of a lightness from the nearer of its ends.
proof fn lemma_nearer_end(l: Single)
    requires
        proper(l),
    ensures
        ({
            let u = pow2(149) as int;
            let e = (Single { bits: ONE }).minus(l).abs().min(l.abs());
            &&& proper(e)
            &&& size(
                e.value() - (if 2 * l.value() <= u {
                    l.value()
                } else {
                    u - l.value()
                }),
            ) <= pow2(125)
        }),
{
    lemma_one();
    lemma_rest(l);
    let one = Single { bits: ONE };
    lemma_absolute(one.minus(l));
    lemma_absolute(l);
    lemma_pow2_pos(125);
}

/// The absolute value of a number that is not below zero.
proof fn lemma_absolute(x: Single)
    requires
        x.finite(),
        x.value() >= 0,
    ensures
        x.abs().finite(),
        x.abs().value() == x.value(),
{
    lemma_one();
    lemma_no_units(x);
}

/// A colour that the settings move in lightness and saturation is that of its
/// hue, with the lightness moved and the saturation moved with it; and settings
/// of zero leave it alone.
pub proof fn law_settings_move_lightness(c: (Single, Single, Single), sv: SettingValues)
    requires
        sv.get(BrushSetting::ChangeColorL).finite(),
        size(sv.get(BrushSetting::ChangeColorL).value()) <= pow2(149),
        sv.get(BrushSetting::ChangeColorHslS).finite(),
        size(sv.get(BrushSetting::ChangeColorHslS).value()) <= pow2(149),
        proper(rgb_to_hsl_spec(c.0, c.1, c.2).h),
        proper(rgb_to_hsl_spec(c.0, c.1, c.2).s),
        proper(rgb_to_hsl_spec(c.0, c.1, c.2).l),
    ensures
        ({
            let hsl = rgb_to_hsl_spec(c.0, c.1, c.2);
            let dl = sv.get(BrushSetting::ChangeColorL);
            let ds = sv.get(BrushSetting::ChangeColorHslS);
            let out = hsl_moved(c, sv);
            &&& dl.value() == 0 && ds.value() == 0 ==> out == c
            &&& dl.value() != 0 || ds.value() != 0 ==> exists|t: Hsl|
                {
                    let rgb = #[trigger] hsl_to_rgb_spec(t);
                    &&& t.h == hsl.h && proper(t.l) && proper(t.s)
                    &&& size(
                        t.l.value() - clip(hsl.l.value() + dl.value(), pow2(149) as int),
                    ) <= pow2(127)
                    &&& saturation_by(hsl.s, t.l, ds, t.s)
                    &&& out == (rgb.r, rgb.g, rgb.b)
                }
        }),
{
    let hsl = rgb_to_hsl_spec(c.0, c.1, c.2);
    let dl = sv.get(BrushSetting::ChangeColorL);
    let ds = sv.get(BrushSetting::ChangeColorHslS);
    let one = Single { bits: ONE };
    lemma_one();
    if dl.value() != 0 || ds.value() != 0 {
        let l = unit(hsl.l.plus(dl));
        lemma_held_sum(hsl.l, dl);
        let e = one.minus(l).abs().min(l.abs());
        let s = unit(hsl.s.plus(hsl.s.times(e).times(Single { bits: TWO }).times(ds)));
        lemma_saturation(hsl.s, l, ds);
        let t = Hsl { h: hsl.h, s, l };
        let rgb = hsl_to_rgb_spec(t);
        assert(hsl_moved(c, sv) == (rgb.r, rgb.g, rgb.b));
    }
}

} // verus!
