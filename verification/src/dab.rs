//! From settings to a dab: its colour, its opacity, its edge and its place.
use crate::brush::{Brush, BrushView};
use crate::color::{
    hsl_to_rgb, hsl_to_rgb_spec, hsv_to_rgb, hsv_to_rgb_spec, rgb_to_hsl, rgb_to_hsl_spec,
    rgb_to_hsv, rgb_to_hsv_spec, to_unit, unit, Hsl, Hsv, RgbaF32,
};
use crate::double::Double;
use crate::elementary::{Answers, Elementary, Narrow, Wide};
use crate::range::{
    in_unit, lemma_finite_or_infinite, lemma_one, lemma_plus_value, lemma_rounded_exact,
    lemma_rounded_monotone, lemma_share_order, lemma_unit_in_unit,
};
use crate::rounding::lemma_magnitude_increases;
use crate::setting::BrushSetting;
use crate::single::{law_times_one, lemma_infinity_units, Single, HALF, INFINITY, ONE, TWO};
use crate::spectral::{mix_colors, mixed};
use crate::state::BrushState;
use crate::surface::Dab;
use crate::values::SettingValues;
use vstd::prelude::*;

verus! {

/// The smudge bucket.
pub open spec fn bucket(state: BrushState) -> Seq<Single> {
    seq![state.smudge_ra, state.smudge_ga, state.smudge_ba, state.smudge_a]
}

/// The alpha that smudging leaves: opaque where there is none.
pub open spec fn target_alpha(state: BrushState, smudge: Single) -> Single {
    unit((Single { bits: ONE }).minus(smudge).plus(smudge.times(state.smudge_a)))
}

fn smudged_alpha(state: &BrushState, smudge: Single) -> (r: Single)
    ensures
        r == target_alpha(*state, smudge),
{
    to_unit((Single { bits: ONE }).minus(smudge).plus(smudge.times(state.smudge_a)))
}

/// One channel of the base colour mixed with the bucket.
pub open spec fn smeared(smudge: Single, bucket: Single, base: Single, alpha: Single) -> Single {
    unit(
        smudge.times(bucket).plus((Single { bits: ONE }).minus(smudge).times(base)).over(alpha),
    )
}

fn smear(smudge: Single, bucket: Single, base: Single, alpha: Single) -> (r: Single)
    ensures
        r == smeared(smudge, bucket, base, alpha),
{
    to_unit(
        smudge.times(bucket).plus((Single { bits: ONE }).minus(smudge).times(base)).over(alpha),
    )
}

/// The colour of a brush mixed with what it picked up: light by light, or
/// like pigments in the measure of `paint`.
pub open spec fn smudged(
    base: RgbaF32,
    state: BrushState,
    smudge: Single,
    paint: Single,
) -> (Single, Single, Single) {
    let zero = Single { bits: 0 };
    let alpha = target_alpha(state, smudge);
    if smudge.le(zero) || alpha.le(zero) {
        (base.r, base.g, base.b)
    } else if zero.lt(paint) {
        let c = mixed(
            bucket(state),
            seq![base.r, base.g, base.b, Single { bits: ONE }],
            smudge,
            paint,
        );
        (unit(c[0]), unit(c[1]), unit(c[2]))
    } else {
        (
            smeared(smudge, state.smudge_ra, base.r, alpha),
            smeared(smudge, state.smudge_ga, base.g, alpha),
            smeared(smudge, state.smudge_ba, base.b, alpha),
        )
    }
}

fn apply_smudge(base: RgbaF32, state: &BrushState, smudge: Single, paint: Single) -> (r: (
    Single,
    Single,
    Single,
))
    ensures
        r == smudged(base, *state, smudge, paint),
{
    let zero = Single { bits: 0 };
    let alpha = smudged_alpha(state, smudge);
    if smudge.le(zero) || alpha.le(zero) {
        return (base.r, base.g, base.b);
    }
    if zero.lt(paint) {
        let a: [Single; 4] = [state.smudge_ra, state.smudge_ga, state.smudge_ba, state.smudge_a];
        let b: [Single; 4] = [base.r, base.g, base.b, Single { bits: ONE }];
        assert(a@ =~= bucket(*state));
        assert(b@ =~= seq![base.r, base.g, base.b, Single { bits: ONE }]);
        let c: [Single; 4] = mix_colors(a, b, smudge, paint);
        (to_unit(c[0]), to_unit(c[1]), to_unit(c[2]))
    } else {
        (
            smear(smudge, state.smudge_ra, base.r, alpha),
            smear(smudge, state.smudge_ga, base.g, alpha),
            smear(smudge, state.smudge_ba, base.b, alpha),
        )
    }
}

/// A colour moved in hue, saturation and value.
pub open spec fn hsv_moved(c: (Single, Single, Single), sv: SettingValues) -> (
    Single,
    Single,
    Single,
) {
    let zero = Single { bits: 0 };
    let dh = sv.get(BrushSetting::ChangeColorH);
    let ds = sv.get(BrushSetting::ChangeColorHsvS);
    let dv = sv.get(BrushSetting::ChangeColorV);
    if dh.same(zero) && ds.same(zero) && dv.same(zero) {
        c
    } else {
        let hsv = rgb_to_hsv_spec(c.0, c.1, c.2);
        let rgb = hsv_to_rgb_spec(
            Hsv {
                h: hsv.h.plus(dh).rem_euclid(Single { bits: ONE }),
                s: unit(hsv.s.plus(hsv.s.times(hsv.v).times(ds))),
                v: unit(hsv.v.plus(dv)),
            },
        );
        (rgb.r, rgb.g, rgb.b)
    }
}

fn move_hsv(c: (Single, Single, Single), sv: &SettingValues) -> (r: (Single, Single, Single))
    ensures
        r == hsv_moved(c, *sv),
{
    let zero = Single { bits: 0 };
    let dh = sv.get(BrushSetting::ChangeColorH);
    let ds = sv.get(BrushSetting::ChangeColorHsvS);
    let dv = sv.get(BrushSetting::ChangeColorV);
    if dh.same(zero) && ds.same(zero) && dv.same(zero) {
        return c;
    }
    let hsv = rgb_to_hsv(c.0, c.1, c.2);
    let rgb = hsv_to_rgb(
        Hsv {
            h: hsv.h.plus(dh).rem_euclid(Single { bits: ONE }),
            s: to_unit(hsv.s.plus(hsv.s.times(hsv.v).times(ds))),
            v: to_unit(hsv.v.plus(dv)),
        },
    );
    (rgb.r, rgb.g, rgb.b)
}

/// A colour moved in lightness and saturation; the more so the further its
/// lightness is from both ends.
pub open spec fn hsl_moved(c: (Single, Single, Single), sv: SettingValues) -> (
    Single,
    Single,
    Single,
) {
    let zero = Single { bits: 0 };
    let dl = sv.get(BrushSetting::ChangeColorL);
    let ds = sv.get(BrushSetting::ChangeColorHslS);
    if dl.same(zero) && ds.same(zero) {
        c
    } else {
        let hsl = rgb_to_hsl_spec(c.0, c.1, c.2);
        let l = unit(hsl.l.plus(dl));
        let edge = (Single { bits: ONE }).minus(l).abs().min(l.abs());
        let s = unit(hsl.s.plus(hsl.s.times(edge).times(Single { bits: TWO }).times(ds)));
        let rgb = hsl_to_rgb_spec(Hsl { h: hsl.h, s, l });
        (rgb.r, rgb.g, rgb.b)
    }
}

fn move_hsl(c: (Single, Single, Single), sv: &SettingValues) -> (r: (Single, Single, Single))
    ensures
        r == hsl_moved(c, *sv),
{
    let zero = Single { bits: 0 };
    let dl = sv.get(BrushSetting::ChangeColorL);
    let ds = sv.get(BrushSetting::ChangeColorHslS);
    if dl.same(zero) && ds.same(zero) {
        return c;
    }
    let hsl = rgb_to_hsl(c.0, c.1, c.2);
    let l = to_unit(hsl.l.plus(dl));
    let edge = (Single { bits: ONE }).minus(l).abs().min(l.abs());
    let s = to_unit(hsl.s.plus(hsl.s.times(edge).times(Single { bits: TWO }).times(ds)));
    let rgb = hsl_to_rgb(Hsl { h: hsl.h, s, l });
    (rgb.r, rgb.g, rgb.b)
}

/// The base colour of a brush.
pub open spec fn base_color(b: BrushView) -> RgbaF32 {
    hsv_to_rgb_spec(
        Hsv {
            h: b.base(BrushSetting::ColorH),
            s: b.base(BrushSetting::ColorS),
            v: b.base(BrushSetting::ColorV),
        },
    )
}

/// The colour of a dab: the base colour, smudged, then moved.
pub open spec fn dab_color(
    b: BrushView,
    sv: SettingValues,
    state: BrushState,
    smudge: Single,
) -> (Single, Single, Single) {
    let paint = unit(sv.get(BrushSetting::Paint));
    hsl_moved(hsv_moved(smudged(base_color(b), state, smudge, paint), sv), sv)
}

fn color_of_dab(brush: &Brush, sv: &SettingValues, state: &BrushState, smudge: Single) -> (r: (
    Single,
    Single,
    Single,
))
    requires
        brush.wf(),
    ensures
        r == dab_color(brush@, *sv, *state, smudge),
{
    let base = hsv_to_rgb(
        Hsv {
            h: brush.base(BrushSetting::ColorH),
            s: brush.base(BrushSetting::ColorS),
            v: brush.base(BrushSetting::ColorV),
        },
    );
    let paint = to_unit(sv.get(BrushSetting::Paint));
    move_hsl(move_hsv(apply_smudge(base, state, smudge, paint), sv), sv)
}

/// The factor of `opaque_multiply`: one when the setting was left alone.
pub open spec fn multiplier(b: BrushView, sv: SettingValues) -> Single {
    if b.base(BrushSetting::OpaqueMultiply).same(Single { bits: 0 }) && !b.mapped(
        BrushSetting::OpaqueMultiply,
    ) {
        Single { bits: ONE }
    } else {
        unit(sv.get(BrushSetting::OpaqueMultiply))
    }
}

pub fn opaque_multiplier(brush: &Brush, sv: &SettingValues) -> (r: Single)
    requires
        brush.wf(),
    ensures
        r == multiplier(brush@, *sv),
{
    if brush.base(BrushSetting::OpaqueMultiply).same(Single { bits: 0 }) && !brush.is_mapped(
        BrushSetting::OpaqueMultiply,
    ) {
        Single { bits: ONE }
    } else {
        to_unit(sv.get(BrushSetting::OpaqueMultiply))
    }
}

/// How many dabs cover a pixel, by the last densities, in the measure of
/// `linearize`.
pub open spec fn overlap(state: BrushState, linearize: Single) -> Single {
    let one = Single { bits: ONE };
    let dense = state.dabs_per_actual_radius.plus(state.dabs_per_basic_radius).times(
        Single { bits: TWO },
    );
    let dense = if dense.lt(one) {
        one
    } else {
        dense
    };
    one.plus(linearize.times(dense.minus(one)))
}

/// The opacity of a dab, lowered so that as many dabs as overlap come to the
/// opacity that is set.
pub open spec fn opacity(
    b: BrushView,
    sv: SettingValues,
    state: BrushState,
    scale: Single,
    m: Answers,
) -> Single {
    let zero = Single { bits: 0 };
    let one = Single { bits: ONE };
    let opaque = unit(
        sv.get(BrushSetting::Opaque).max(zero).times(multiplier(b, sv)).times(scale),
    );
    let linearize = b.base(BrushSetting::OpaqueLinearize).max(zero);
    if zero.lt(linearize) && zero.lt(opaque) {
        unit(one.minus(m.pow(one.minus(opaque), one.over(overlap(state, linearize)))))
    } else {
        opaque
    }
}

fn opacity_of_dab<N: Fn(Narrow) -> Single, W: Fn(Wide) -> Double>(
    brush: &Brush,
    sv: &SettingValues,
    state: &BrushState,
    scale: Single,
    math: &Elementary<N, W>,
) -> (r: Single)
    requires
        brush.wf(),
        math.wf(),
    ensures
        r == opacity(brush@, *sv, *state, scale, math.answers()),
{
    let zero = Single { bits: 0 };
    let one = Single { bits: ONE };
    let opaque = to_unit(
        sv.get(BrushSetting::Opaque).max(zero).times(opaque_multiplier(brush, sv)).times(scale),
    );
    let linearize = brush.base(BrushSetting::OpaqueLinearize).max(zero);
    if zero.lt(linearize) && zero.lt(opaque) {
        let mut dense = state.dabs_per_actual_radius.plus(state.dabs_per_basic_radius).times(
            Single { bits: TWO },
        );
        if dense.lt(one) {
            dense = one;
        }
        dense = one.plus(linearize.times(dense.minus(one)));
        to_unit(one.minus(math.pow(one.minus(opaque), one.over(dense))))
    } else {
        opaque
    }
}

/// The radius and hardness of a dab whose edge fades over `fade` pixels at
/// the least: a softer dab of the same optical radius where it would be
/// sharper.
pub open spec fn softened(radius: Single, hardness: Single, fade: Single) -> (Single, Single) {
    let one = Single { bits: ONE };
    let half = Single { bits: HALF };
    if radius.times(one.minus(hardness)).lt(fade) {
        let optical = radius.minus(one.minus(hardness).times(radius).times(half));
        let soft = optical.minus(fade.times(half)).over(optical.plus(fade.times(half)));
        if soft.lt(one) {
            (fade.over(one.minus(soft)), soft)
        } else {
            (radius, hardness)
        }
    } else {
        (radius, hardness)
    }
}

fn soften(radius: Single, hardness: Single, fade: Single) -> (r: (Single, Single))
    ensures
        r == softened(radius, hardness, fade),
{
    let one = Single { bits: ONE };
    let half = Single { bits: HALF };
    if radius.times(one.minus(hardness)).lt(fade) {
        let optical = radius.minus(one.minus(hardness).times(radius).times(half));
        let soft = optical.minus(fade.times(half)).over(optical.plus(fade.times(half)));
        if soft.lt(one) {
            return (fade.over(one.minus(soft)), soft);
        }
    }
    (radius, hardness)
}

/// 0.9999 and 0.0001.
pub const NEARLY_ONE: u32 = 0x3f7f_f972;

pub const HAIR: u32 = 0x38d1_b717;

/// `v` moved towards `to` by the part `part` of the way.
pub open spec fn approached(v: Single, to: Single, part: Single) -> Single {
    v.plus(to.minus(v).times(part))
}

pub fn approach(v: Single, to: Single, part: Single) -> (r: Single)
    ensures
        r == approached(v, to, part),
{
    v.plus(to.minus(v).times(part))
}

/// Whether a number is between two others, or is one of them.
pub open spec fn between(a: Single, v: Single, b: Single) -> bool {
    a.le(v) && v.le(b) || b.le(v) && v.le(a)
}

/// A part of a way leads to a point on the way that a larger part goes.
pub proof fn law_smaller_part_stays_behind(v: Single, to: Single, part: Single, more: Single)
    requires
        v.finite(),
        to.minus(v).finite(),
        (Single { bits: 0 }).le(part),
        part.le(more),
        more.le(Single { bits: ONE }),
    ensures
        between(v, approached(v, to, part), approached(v, to, more)),
{
    let d = to.minus(v);
    let one = Single { bits: ONE };
    lemma_one();
    lemma_infinity_units();
    if !part.finite() {
        lemma_finite_or_infinite(part);
    }
    if !more.finite() {
        lemma_finite_or_infinite(more);
    }
    lemma_share_order(d, part, more);
    lemma_share_order(d, more, one);
    law_times_one(d);
    let x = d.times(part);
    let y = d.times(more);
    lemma_within_finite(x, d);
    lemma_within_finite(y, d);
    lemma_plus_value(v, x);
    lemma_plus_value(v, y);
    lemma_rounded_exact(v);
    if d.value() >= 0 {
        lemma_rounded_monotone(v.value(), v.value() + x.value());
        lemma_rounded_monotone(v.value() + x.value(), v.value() + y.value());
    } else {
        lemma_rounded_monotone(v.value() + x.value(), v.value());
        lemma_rounded_monotone(v.value() + y.value(), v.value() + x.value());
    }
}

/// What is no further from zero than a finite number is finite.
pub proof fn lemma_within_finite(x: Single, d: Single)
    requires
        !x.nan(),
        d.finite(),
        0 <= x.value() <= d.value() || d.value() <= x.value() <= 0,
    ensures
        x.finite(),
{
    lemma_infinity_units();
    if !x.finite() {
        lemma_finite_or_infinite(x);
        lemma_magnitude_increases(d.mag(), INFINITY as nat, 24);
    }
}

/// The radius that a dab of full `snap` has: a whole number of half pixels,
/// less a hair.
pub open spec fn snapped_radius(radius: Single, snap: Single) -> Single {
    let half = Single { bits: HALF };
    let r = radius.times(Single { bits: TWO }).round().times(half);
    let r = if r.lt(half) {
        half
    } else {
        r
    };
    if (Single { bits: NEARLY_ONE }).lt(snap) {
        r.minus(Single { bits: HAIR })
    } else {
        r
    }
}

/// Centre and radius drawn towards the pixel grid.
pub open spec fn snapped(x: Single, y: Single, radius: Single, snap: Single) -> (
    Single,
    Single,
    Single,
) {
    let half = Single { bits: HALF };
    if (Single { bits: 0 }).lt(snap) {
        (
            approached(x, x.floor().plus(half), snap),
            approached(y, y.floor().plus(half), snap),
            approached(radius, snapped_radius(radius, snap), snap),
        )
    } else {
        (x, y, radius)
    }
}

fn snap_to_pixel(x: Single, y: Single, radius: Single, snap: Single) -> (r: (
    Single,
    Single,
    Single,
))
    ensures
        r == snapped(x, y, radius, snap),
{
    let half = Single { bits: HALF };
    if (Single { bits: 0 }).lt(snap) {
        let mut to = radius.times(Single { bits: TWO }).round().times(half);
        if to.lt(half) {
            to = half;
        }
        if (Single { bits: NEARLY_ONE }).lt(snap) {
            to = to.minus(Single { bits: HAIR });
        }
        (
            approach(x, x.floor().plus(half), snap),
            approach(y, y.floor().plus(half), snap),
            approach(radius, to, snap),
        )
    } else {
        (x, y, radius)
    }
}

/// 100 and 128.
pub const LEVEL_SCALE: u32 = 0x42c8_0000;

pub const MOST_LEVELS: u32 = 0x4300_0000;

/// The dab that a brush makes at a place.
pub open spec fn dab_at(
    b: BrushView,
    sv: SettingValues,
    state: BrushState,
    x: Single,
    y: Single,
    radius: Single,
    smudge: Single,
    scale: Single,
    m: Answers,
) -> Dab {
    let zero = Single { bits: 0 };
    let one = Single { bits: ONE };
    let smudge = unit(smudge);
    let c = dab_color(b, sv, state, smudge);
    let edge = softened(
        radius,
        unit(sv.get(BrushSetting::Hardness)),
        sv.get(BrushSetting::AntiAliasing).max(zero),
    );
    let place = snapped(x, y, edge.0, unit(sv.get(BrushSetting::SnapToPixel)));
    let kept = one.minus(unit(sv.get(BrushSetting::Eraser)));
    Dab {
        x: place.0,
        y: place.1,
        radius: place.2,
        color: RgbaF32 { r: c.0, g: c.1, b: c.2, a: one },
        opaque: opacity(b, sv, state, scale, m),
        hardness: edge.1,
        alpha_eraser: unit(target_alpha(state, smudge).times(kept)),
        aspect_ratio: sv.get(BrushSetting::EllipticalDabRatio).max(one),
        angle: sv.get(BrushSetting::EllipticalDabAngle),
        lock_alpha: unit(sv.get(BrushSetting::LockAlpha)),
        colorize: unit(sv.get(BrushSetting::Colorize)),
        posterize: unit(sv.get(BrushSetting::Posterize)),
        posterize_num: sv.get(BrushSetting::PosterizeNum).times(
            Single { bits: LEVEL_SCALE },
        ).round().clamp(one, Single { bits: MOST_LEVELS }),
        paint: unit(sv.get(BrushSetting::Paint)),
        anti_aliasing: zero,
    }
}

/// What of a dab comes from the settings alone, and its alpha.
pub open spec fn follows(d: Dab, sv: SettingValues, state: BrushState, smudge: Single) -> bool {
    let kept = (Single { bits: ONE }).minus(unit(sv.get(BrushSetting::Eraser)));
    &&& d.alpha_eraser == unit(target_alpha(state, unit(smudge)).times(kept))
    &&& d.lock_alpha == unit(sv.get(BrushSetting::LockAlpha))
    &&& d.colorize == unit(sv.get(BrushSetting::Colorize))
    &&& d.posterize == unit(sv.get(BrushSetting::Posterize))
    &&& d.paint == unit(sv.get(BrushSetting::Paint))
}

pub proof fn lemma_dab_follows(
    b: BrushView,
    sv: SettingValues,
    state: BrushState,
    x: Single,
    y: Single,
    radius: Single,
    smudge: Single,
    scale: Single,
    m: Answers,
)
    ensures
        follows(dab_at(b, sv, state, x, y, radius, smudge, scale, m), sv, state, smudge),
{
}

/// The memory of a brush after it made a dab of a colour.
pub open spec fn colored(state: BrushState, c: (Single, Single, Single)) -> BrushState {
    let hsv = rgb_to_hsv_spec(c.0, c.1, c.2);
    BrushState { actual_h: hsv.h, actual_s: hsv.s, actual_v: hsv.v, ..state }
}

/// Makes a dab with the given settings at a place.
pub fn build_dab<N: Fn(Narrow) -> Single, W: Fn(Wide) -> Double>(
    brush: &Brush,
    sv: &SettingValues,
    state: &mut BrushState,
    x: Single,
    y: Single,
    radius: Single,
    smudge: Single,
    scale: Single,
    math: &Elementary<N, W>,
) -> (dab: Dab)
    requires
        brush.wf(),
        math.wf(),
    ensures
        dab == dab_at(brush@, *sv, *old(state), x, y, radius, smudge, scale, math.answers()),
        *final(state) == colored(
            *old(state),
            dab_color(brush@, *sv, *old(state), unit(smudge)),
        ),
{
    let zero = Single { bits: 0 };
    let one = Single { bits: ONE };
    let smudge = to_unit(smudge);
    let c: (Single, Single, Single) = color_of_dab(brush, sv, state, smudge);
    let opaque = opacity_of_dab(brush, sv, state, scale, math);
    let edge: (Single, Single) = soften(
        radius,
        to_unit(sv.get(BrushSetting::Hardness)),
        sv.get(BrushSetting::AntiAliasing).max(zero),
    );
    let place: (Single, Single, Single) = snap_to_pixel(
        x,
        y,
        edge.0,
        to_unit(sv.get(BrushSetting::SnapToPixel)),
    );
    let kept = one.minus(to_unit(sv.get(BrushSetting::Eraser)));
    let alpha_eraser = to_unit(smudged_alpha(state, smudge).times(kept));
    let hsv = rgb_to_hsv(c.0, c.1, c.2);
    state.actual_h = hsv.h;
    state.actual_s = hsv.s;
    state.actual_v = hsv.v;
    Dab {
        x: place.0,
        y: place.1,
        radius: place.2,
        color: RgbaF32 { r: c.0, g: c.1, b: c.2, a: one },
        opaque,
        hardness: edge.1,
        alpha_eraser,
        aspect_ratio: sv.get(BrushSetting::EllipticalDabRatio).max(one),
        angle: sv.get(BrushSetting::EllipticalDabAngle),
        lock_alpha: to_unit(sv.get(BrushSetting::LockAlpha)),
        colorize: to_unit(sv.get(BrushSetting::Colorize)),
        posterize: to_unit(sv.get(BrushSetting::Posterize)),
        posterize_num: sv.get(BrushSetting::PosterizeNum).times(
            Single { bits: LEVEL_SCALE },
        ).round().clamp(one, Single { bits: MOST_LEVELS }),
        paint: to_unit(sv.get(BrushSetting::Paint)),
        anti_aliasing: zero,
    }
}

/// Whatever the settings, the shares of a dab lie in the unit interval, its
/// number of levels between 1 and 128, and it is at least as long as wide.
pub proof fn law_dab_is_in_range(
    b: BrushView,
    sv: SettingValues,
    state: BrushState,
    x: Single,
    y: Single,
    radius: Single,
    smudge: Single,
    scale: Single,
    m: Answers,
)
    ensures
        ({
            let d = dab_at(b, sv, state, x, y, radius, smudge, scale, m);
            &&& in_unit(d.opaque)
            &&& in_unit(d.alpha_eraser)
            &&& in_unit(d.lock_alpha)
            &&& in_unit(d.colorize)
            &&& in_unit(d.posterize)
            &&& in_unit(d.paint)
            &&& !d.posterize_num.nan() ==> (Single { bits: ONE }).le(d.posterize_num)
                && d.posterize_num.le(Single { bits: MOST_LEVELS })
            &&& (Single { bits: ONE }).le(d.aspect_ratio)
        }),
{
    let one = Single { bits: ONE };
    let d = dab_at(b, sv, state, x, y, radius, smudge, scale, m);
    assert(in_unit(d.opaque)) by {
        lemma_opacity_in_unit(b, sv, state, scale, m);
    }
    assert(in_unit(d.alpha_eraser)) by {
        let kept = one.minus(unit(sv.get(BrushSetting::Eraser)));
        lemma_unit_in_unit(target_alpha(state, unit(smudge)).times(kept));
    }
    assert(in_unit(d.lock_alpha)) by {
        lemma_unit_in_unit(sv.get(BrushSetting::LockAlpha));
    }
    assert(in_unit(d.colorize)) by {
        lemma_unit_in_unit(sv.get(BrushSetting::Colorize));
    }
    assert(in_unit(d.posterize)) by {
        lemma_unit_in_unit(sv.get(BrushSetting::Posterize));
    }
    assert(in_unit(d.paint)) by {
        lemma_unit_in_unit(sv.get(BrushSetting::Paint));
    }
    lemma_levels(
        sv.get(BrushSetting::PosterizeNum).times(Single { bits: LEVEL_SCALE }).round(),
    );
    lemma_at_least_one(sv.get(BrushSetting::EllipticalDabRatio));
}

proof fn lemma_levels(x: Single)
    ensures
        ({
            let one = Single { bits: ONE };
            let most = Single { bits: MOST_LEVELS };
            let n = x.clamp(one, most);
            !n.nan() ==> one.le(n) && n.le(most)
        }),
{
    lemma_magnitude_increases(ONE as nat, MOST_LEVELS as nat, 24);
}

proof fn lemma_at_least_one(x: Single)
    ensures
        (Single { bits: ONE }).le(x.max(Single { bits: ONE })),
{
}

proof fn lemma_opacity_in_unit(
    b: BrushView,
    sv: SettingValues,
    state: BrushState,
    scale: Single,
    m: Answers,
)
    ensures
        in_unit(opacity(b, sv, state, scale, m)),
{
    let zero = Single { bits: 0 };
    let one = Single { bits: ONE };
    let opaque = sv.get(BrushSetting::Opaque).max(zero).times(multiplier(b, sv)).times(scale);
    let linearize = b.base(BrushSetting::OpaqueLinearize).max(zero);
    let rooted = one.minus(m.pow(one.minus(unit(opaque)), one.over(overlap(state, linearize))));
    lemma_unit_in_unit(opaque);
    lemma_unit_in_unit(rooted);
}

} // verus!
