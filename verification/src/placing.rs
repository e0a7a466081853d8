//! Where a dab is placed, and how large.
//!
//! Values are in units of 2^-149, so that one is 2^149.
use crate::dynamics::TENTH;
use crate::elementary::Answers;
use crate::means::{
    close, lemma_over_close, lemma_over_finite, lemma_plus_close, lemma_times_close,
    lemma_times_finite, size,
};
use crate::memory::law_radius_is_held;
use crate::offsets::{law_no_offset_settings_no_offset, offsets, stroke_side, FURTHEST};
use crate::range::{lemma_known, lemma_negate, lemma_one, lemma_over_near, lemma_plus_near};
use crate::setting::BrushSetting;
use crate::single::{lemma_infinity_units, Single, ONE};
use crate::smudge::radius_of;
use crate::state::BrushState;
use crate::stroke::{dragged, resized, Place};
use crate::values::SettingValues;
use vstd::arithmetic::power2::*;
use vstd::prelude::*;

verus! {

/// Whether `d` is an offset of `by` in units of `scale`, where that is less
/// than 3239 pixels.
pub open spec fn offset_by(by: Single, scale: Single, d: Single) -> bool {
    let u = pow2(149) as int;
    let way = by.value() * scale.value();
    by.finite() && size(way) <= 3239 * (u * u) ==> d.finite() && close(u * d.value(), way, u)
}

/// An offset that is computed.
proof fn lemma_offset(by: Single, scale: Single)
    requires
        scale.finite(),
    ensures
        ({
            let most = Single { bits: FURTHEST };
            offset_by(by, scale, by.times(scale).clamp(most.negate(), most))
        }),
{
    let u = pow2(149) as int;
    let most = Single { bits: FURTHEST };
    let way = by.value() * scale.value();
    lemma_one();
    if by.finite() && size(way) <= 3239 * (u * u) {
        lemma_known(FURTHEST, 0xca_8000, 137);
        lemma_pow2_adds(12, 137);
        lemma_pow2_adds(12, 149);
        assert(pow2(12) == 4096) by {
            lemma2_to64();
        }
        lemma_negate(most);
        let (b, s) = (by.value(), scale.value());
        assert(size(b) * size(s) == size(way)) by (nonlinear_arith)
            requires
                way == b * s,
                size(b) == (if b < 0 {
                    -b
                } else {
                    b
                }),
                size(s) == (if s < 0 {
                    -s
                } else {
                    s
                }),
                size(way) == (if way < 0 {
                    -way
                } else {
                    way
                }),
        ;
        assert(3239 * (u * u) < pow2(161) * pow2(149)) by (nonlinear_arith)
            requires
                pow2(161) == 4096 * u,
                pow2(149) == u,
                u > 0,
        ;
        lemma_times_finite(by, scale, 161);
        lemma_times_close(by, scale);
        let r = by.times(scale).value();
        let ur = u * r;
        assert(u * u >= u) by (nonlinear_arith)
            requires
                u > 0,
        ;
        assert(-(3240 * (u * u)) <= ur <= 3240 * (u * u));
        assert(-(3240 * u) <= r <= 3240 * u) by (nonlinear_arith)
            requires
                -(3240 * (u * u)) <= u * r <= 3240 * (u * u),
                u > 0,
        ;
    }
}

/// The fixed offsets count in base radii times the exponential of the
/// multiplier: that along x moves a dab along x, and that along y along y.
pub proof fn law_fixed_offsets_count_in_radii(
    sv: SettingValues,
    base_radius: Single,
    flip: Single,
    dx: Single,
    dy: Single,
    pen: Single,
    m: Answers,
)
    requires
        sv.get(BrushSetting::OffsetAngle).same(Single { bits: 0 }),
        sv.get(BrushSetting::OffsetAngleAsc).same(Single { bits: 0 }),
        sv.get(BrushSetting::OffsetAngleView).same(Single { bits: 0 }),
        sv.get(BrushSetting::OffsetAngle2).le(Single { bits: 0 }),
        sv.get(BrushSetting::OffsetAngle2Asc).le(Single { bits: 0 }),
        sv.get(BrushSetting::OffsetAngle2View).le(Single { bits: 0 }),
        base_radius.finite(),
        m.exp(sv.get(BrushSetting::OffsetMultiplier)).finite(),
        size(base_radius.value()) * size(m.exp(sv.get(BrushSetting::OffsetMultiplier)).value())
            < pow2(270) * pow2(149),
    ensures
        ({
            let u = pow2(149) as int;
            let d = offsets(sv, base_radius, flip, dx, dy, pen, m);
            let multiplier = m.exp(sv.get(BrushSetting::OffsetMultiplier));
            exists|scale: Single|
                {
                    &&& close(u * scale.value(), base_radius.value() * multiplier.value(), u)
                    &&& #[trigger] offset_by(sv.get(BrushSetting::OffsetX), scale, d.0)
                    &&& offset_by(sv.get(BrushSetting::OffsetY), scale, d.1)
                }
        }),
{
    let multiplier = m.exp(sv.get(BrushSetting::OffsetMultiplier));
    let scale = base_radius.times(multiplier);
    let d = offsets(sv, base_radius, flip, dx, dy, pen, m);
    lemma_times_finite(base_radius, multiplier, 270);
    lemma_times_close(base_radius, multiplier);
    law_no_offset_settings_no_offset(sv, flip, stroke_side(dx, dy, m), pen, m);
    lemma_offset(sv.get(BrushSetting::OffsetX), scale);
    lemma_offset(sv.get(BrushSetting::OffsetY), scale);
    assert(offset_by(sv.get(BrushSetting::OffsetX), scale, d.0));
}

/// Whether `p` is the product of two numbers, as near as it can be.
pub open spec fn product(a: Single, b: Single, p: Single) -> bool {
    p.finite() && close(pow2(149) * p.value(), a.value() * b.value(), pow2(149) as int)
}

/// Whether a coordinate is moved from `a` to `b` by a tenth of the speed times
/// the amount.
pub open spec fn dragged_by(speed: Single, amount: Single, a: Single, b: Single) -> bool {
    exists|t: Single, q: Single|
        {
            &&& #[trigger] product(speed, amount, t)
            &&& #[trigger] product(t, Single { bits: TENTH }, q)
            &&& close(b.value(), a.value() + q.value(), 1)
        }
}

/// A tenth.
proof fn lemma_tenth()
    ensures
        (Single { bits: TENTH }).finite(),
        size(10 * (Single { bits: TENTH }).value() - pow2(149)) <= pow2(126),
        0 < (Single { bits: TENTH }).value() <= pow2(149),
{
    lemma_known(TENTH, 0xcc_cccd, 122);
    lemma_pow2_adds(27, 122);
    lemma_pow2_adds(4, 122);
    lemma_pow2_pos(122);
    assert(pow2(27) == 0x800_0000 && pow2(4) == 16) by {
        lemma2_to64();
    }
}

/// A coordinate that is dragged.
proof fn lemma_dragged(speed: Single, amount: Single, a: Single)
    requires
        speed.finite(),
        amount.finite(),
        size(speed.value()) * size(amount.value()) <= pow2(240) * pow2(149),
        a.finite(),
        size(a.value()) <= pow2(240),
    ensures
        dragged_by(
            speed,
            amount,
            a,
            a.plus(speed.times(amount).times(Single { bits: TENTH })),
        ),
{
    let u = pow2(149) as int;
    let tenth = Single { bits: TENTH };
    let t = speed.times(amount);
    let q = t.times(tenth);
    let h = pow2(240) as int;
    lemma_one();
    lemma_tenth();
    lemma_pow2_unfold(241);
    lemma_pow2_unfold(242);
    lemma_pow2_unfold(243);
    lemma_pow2_unfold(244);
    lemma_pow2_pos(240);
    lemma_pow2_strictly_increases(149, 240);
    assert(h * u < pow2(241) * pow2(149)) by (nonlinear_arith)
        requires
            pow2(241) == 2 * h,
            pow2(149) == u,
            u > 0,
            h > 0,
    ;
    lemma_times_finite(speed, amount, 241);
    lemma_times_close(speed, amount);
    let (sv, mv, tv) = (speed.value(), amount.value(), t.value());
    assert(size(sv * mv) == size(sv) * size(mv)) by (nonlinear_arith)
        requires
            size(sv) == (if sv < 0 {
                -sv
            } else {
                sv
            }),
            size(mv) == (if mv < 0 {
                -mv
            } else {
                mv
            }),
            size(sv * mv) == (if sv * mv < 0 {
                -(sv * mv)
            } else {
                sv * mv
            }),
    ;
    assert(h * u >= u) by (nonlinear_arith)
        requires
            h > 0,
            u > 0,
    ;
    assert(-(2 * (h * u)) <= u * tv <= 2 * (h * u));
    assert(size(tv) <= 2 * h) by (nonlinear_arith)
        requires
            -(2 * (h * u)) <= u * tv <= 2 * (h * u),
            u > 0,
            size(tv) == (if tv < 0 {
                -tv
            } else {
                tv
            }),
    ;
    let (st, wv, qv) = (size(tv), tenth.value(), q.value());
    assert(0 <= st * wv <= 2 * (h * u)) by (nonlinear_arith)
        requires
            0 <= st <= 2 * h,
            0 < wv <= u,
    ;
    assert(size(wv) == wv);
    assert(2 * (h * u) < pow2(242) * pow2(149)) by (nonlinear_arith)
        requires
            pow2(242) == 4 * h,
            pow2(149) == u,
            u > 0,
            h > 0,
    ;
    lemma_times_finite(t, tenth, 242);
    lemma_times_close(t, tenth);
    assert(size(tv * wv) == st * wv) by (nonlinear_arith)
        requires
            st == (if tv < 0 {
                -tv
            } else {
                tv
            }),
            wv > 0,
            size(tv * wv) == (if tv * wv < 0 {
                -(tv * wv)
            } else {
                tv * wv
            }),
    ;
    assert(-(3 * (h * u)) <= u * qv <= 3 * (h * u));
    assert(-(3 * h) <= qv <= 3 * h) by (nonlinear_arith)
        requires
            -(3 * (h * u)) <= u * qv <= 3 * (h * u),
            u > 0,
    ;
    lemma_plus_near(a, q, 244);
    lemma_plus_close(a, q);
    assert(product(speed, amount, t) && product(t, tenth, q));
}

/// A dab is dragged along with the stroke by a tenth of the speed times the
/// setting, along each axis by the speed along that axis; its size stays.
pub proof fn law_dabs_are_dragged_along(state: BrushState, sv: SettingValues, p: Place)
    requires
        sv.get(BrushSetting::OffsetBySpeed).finite(),
        state.norm_dx_slow.finite() && state.norm_dy_slow.finite(),
        size(state.norm_dx_slow.value()) * size(sv.get(BrushSetting::OffsetBySpeed).value())
            <= pow2(240) * pow2(149),
        size(state.norm_dy_slow.value()) * size(sv.get(BrushSetting::OffsetBySpeed).value())
            <= pow2(240) * pow2(149),
        p.x.finite() && size(p.x.value()) <= pow2(240),
        p.y.finite() && size(p.y.value()) <= pow2(240),
    ensures
        ({
            let amount = sv.get(BrushSetting::OffsetBySpeed);
            let q = dragged(state, sv, p);
            &&& size(10 * (Single { bits: TENTH }).value() - pow2(149)) <= pow2(126)
            &&& amount.value() == 0 ==> q == p
            &&& amount.value() != 0 ==> dragged_by(state.norm_dx_slow, amount, p.x, q.x)
                && dragged_by(state.norm_dy_slow, amount, p.y, q.y)
            &&& q.radius == p.radius && q.scale == p.scale
        }),
{
    let amount = sv.get(BrushSetting::OffsetBySpeed);
    lemma_one();
    lemma_tenth();
    lemma_dragged(state.norm_dx_slow, amount, p.x);
    lemma_dragged(state.norm_dy_slow, amount, p.y);
}

/// A fainter dab.
pub open spec fn fainter_by(old: Single, new: Single, before: Single, after: Single) -> bool {
    let u = pow2(149) as int;
    exists|ratio: Single, square: Single|
        {
            &&& close(ratio.value() * new.value(), old.value() * u, new.value())
            &&& #[trigger] product(ratio, ratio, square)
            &&& after.value() == (if square.value() <= u {
                square.value()
            } else {
                before.value()
            })
        }
}

/// The radius of a dab changes by chance: the logarithm by a normal number
/// times the setting, which takes one such number.  A larger dab is fainter by
/// the square of the ratio of the radii; a smaller one is as before.  The place
/// stays.
pub proof fn law_larger_dabs_are_fainter(
    state: BrushState,
    sv: SettingValues,
    p: Place,
    m: Answers,
)
    requires
        sv.get(BrushSetting::RadiusByRandom).finite(),
        p.radius.finite(),
        8 * p.radius.value() >= pow2(149) && p.radius.value() <= 1000 * pow2(149),
        resized(state, sv, p, m).1.radius.finite(),
        p.scale.finite(),
    ensures
        ({
            let amount = sv.get(BrushSetting::RadiusByRandom);
            let (s, q) = resized(state, sv, p, m);
            &&& q.x == p.x && q.y == p.y
            &&& amount.value() == 0 ==> s == state && q == p
            &&& amount.value() != 0 ==> s == (BrushState { rng: state.rng.drawn_gauss(), ..state })
            &&& amount.value() != 0 ==> fainter_by(p.radius, q.radius, p.scale, q.scale)
            &&& amount.value() > 0 ==> q.radius == radius_of(
                sv.get(BrushSetting::Radius).plus(state.rng.gauss().times(amount)),
                m,
            )
        }),
{
    let amount = sv.get(BrushSetting::RadiusByRandom);
    let zero = Single { bits: 0 };
    lemma_one();
    if amount.value() != 0 {
        let log = sv.get(BrushSetting::Radius).plus(state.rng.gauss().times(amount.max(zero)));
        let new = radius_of(log, m);
        assert(resized(state, sv, p, m).1.radius == new);
        lemma_fainter(p.radius, new, log, m);
        let ratio = p.radius.over(new);
        let square = ratio.times(ratio);
        assert(product(ratio, ratio, square));
        assert(square.le(Single { bits: ONE }) == (square.value() <= pow2(149)));
    }
}

/// How much fainter a larger dab is.
proof fn lemma_fainter(old: Single, new: Single, log: Single, m: Answers)
    requires
        old.finite(),
        8 * old.value() >= pow2(149) && old.value() <= 1000 * pow2(149),
        new == radius_of(log, m),
        new.finite(),
    ensures
        ({
            let ratio = old.over(new);
            &&& close(ratio.value() * new.value(), old.value() * pow2(149), new.value())
            &&& product(ratio, ratio, ratio.times(ratio))
        }),
{
    let u = pow2(149) as int;
    let ratio = old.over(new);
    lemma_one();
    lemma_infinity_units();
    law_radius_is_held(log, m);
    lemma_pow2_adds(23, 126);
    lemma_pow2_adds(14, 149);
    lemma_pow2_adds(163, 14);
    lemma_pow2_pos(126);
    assert(pow2(23) == 0x80_0000 && pow2(14) == 0x4000) by {
        lemma2_to64();
    }
    let (o, n) = (old.value(), new.value());
    let w = pow2(126) as int;
    assert(u == 0x80_0000 * w);
    assert(10 * n >= 2 * u - w);
    assert(8 * n >= u);
    assert(o * u < pow2(163) * n) by (nonlinear_arith)
        requires
            pow2(163) == 0x4000 * u,
            8 * n >= u,
            0 <= o <= 1000 * u,
            u > 0,
    ;
    assert(size(o) == o);
    lemma_over_finite(old, new, 163);
    lemma_over_near(old, new, 163);
    lemma_over_close(old, new);
    let r = ratio.value();
    lemma_pow2_adds(139, 24);
    assert(pow2(24) == 0x100_0000) by {
        lemma2_to64();
    }
    let e = pow2(139) as int;
    assert(0 <= r <= 0x8000 * u) by (nonlinear_arith)
        requires
            2 * (r * n) <= 2 * (o * u) + n * e,
            8 * n >= u,
            o <= 1000 * u,
            0x4000 * u == 0x100_0000 * e,
            r >= 0,
            e > 0,
            u > 0,
    ;
    assert(size(r) == r);
    lemma_pow2_adds(30, 149);
    lemma_pow2_unfold(180);
    assert(pow2(30) == 0x4000_0000) by {
        lemma2_to64();
    }
    assert(r * r < pow2(180) * pow2(149)) by (nonlinear_arith)
        requires
            0 <= r <= 0x8000 * u,
            pow2(180) == 0x8000_0000 * u,
            pow2(149) == u,
            u > 0,
    ;
    lemma_times_finite(ratio, ratio, 180);
    lemma_times_close(ratio, ratio);
}

} // verus!
