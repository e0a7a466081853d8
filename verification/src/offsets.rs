//! Where a dab lands beside the stroke.
use crate::angles::{degrees, degrees_c, radians, radians_c, DEGREES_360, QUARTER_TURN};
use crate::double::Double;
use crate::elementary::{Answers, Elementary, Narrow, Wide};
use crate::rounding::lemma_magnitude_increases;
use crate::setting::BrushSetting;
use crate::single::{lemma_magnitude_zero, Single};
use crate::values::SettingValues;
use vstd::prelude::*;

verus! {

/// A shift by `factor` in the direction `angle`, in radians, unless `factor`
/// is zero.
pub open spec fn shifted(
    d: (Single, Single),
    angle: Single,
    factor: Single,
    m: Answers,
) -> (Single, Single) {
    if factor.same(Single { bits: 0 }) {
        d
    } else {
        let a = Double::widen(angle);
        let f = Double::widen(factor);
        (
            Double::widen(d.0).plus(m.wide_cos(a).times(f)).narrow(),
            Double::widen(d.1).plus(m.wide_sin(a).times(f)).narrow(),
        )
    }
}

fn add_polar<N: Fn(Narrow) -> Single, W: Fn(Wide) -> Double>(
    d: (Single, Single),
    angle: Single,
    factor: Single,
    math: &Elementary<N, W>,
) -> (r: (Single, Single))
    requires
        math.wf(),
        !factor.same_spec(Single { bits: 0 }),
    ensures
        r == shifted(d, angle, factor, math.answers()),
{
    let a = Double::from_single(angle);
    let f = Double::from_single(factor);
    (
        Double::from_single(d.0).plus(math.wide_cos(a).times(f)).narrow(),
        Double::from_single(d.1).plus(math.wide_sin(a).times(f)).narrow(),
    )
}

/// A shift that is mirrored with `flip`, unless its size is zero.
pub open spec fn mirrored(
    d: (Single, Single),
    angle: Single,
    size: Single,
    flip: Single,
    m: Answers,
) -> (Single, Single) {
    if size.same(Single { bits: 0 }) {
        d
    } else {
        let a = Double::widen(angle);
        let f = Double::widen(flip.times(size));
        (
            Double::widen(d.0).plus(m.wide_cos(a).times(f)).narrow(),
            Double::widen(d.1).plus(m.wide_sin(a).times(f)).narrow(),
        )
    }
}

fn add_mirrored<N: Fn(Narrow) -> Single, W: Fn(Wide) -> Double>(
    d: (Single, Single),
    angle: Single,
    size: Single,
    flip: Single,
    math: &Elementary<N, W>,
) -> (r: (Single, Single))
    requires
        math.wf(),
        !size.same_spec(Single { bits: 0 }),
    ensures
        r == mirrored(d, angle, size, flip, math.answers()),
{
    let a = Double::from_single(angle);
    let f = Double::from_single(flip.times(size));
    (
        Double::from_single(d.0).plus(math.wide_cos(a).times(f)).narrow(),
        Double::from_single(d.1).plus(math.wide_sin(a).times(f)).narrow(),
    )
}

/// The furthest that a dab is moved, in pixels.
pub const FURTHEST: u32 = 0x454a_8000;

/// What the offset settings move a dab by, in base radii before the
/// multiplier: a fixed shift, a shift along each of the stroke, the pen and
/// the view, and a mirrored shift along each of them.
pub open spec fn offset_sum(
    sv: SettingValues,
    flip: Single,
    stroke: Single,
    pen: Single,
    m: Answers,
) -> (Single, Single) {
    let zero = Single { bits: 0 };
    let adj = sv.get(BrushSetting::OffsetAngleAdj);
    let view = radians(zero.plus(adj)).negate();
    let d0 = (sv.get(BrushSetting::OffsetX), sv.get(BrushSetting::OffsetY));
    let d1 = shifted(d0, radians(stroke.plus(adj)), sv.get(BrushSetting::OffsetAngle), m);
    let d2 = shifted(d1, radians(pen.plus(adj)), sv.get(BrushSetting::OffsetAngleAsc), m);
    let d3 = shifted(d2, view, sv.get(BrushSetting::OffsetAngleView), m);
    let d4 = mirrored(
        d3,
        radians(stroke.plus(adj.times(flip))),
        sv.get(BrushSetting::OffsetAngle2).max(zero),
        flip,
        m,
    );
    let d5 = mirrored(
        d4,
        radians(pen.plus(adj.times(flip))),
        sv.get(BrushSetting::OffsetAngle2Asc).max(zero),
        flip,
        m,
    );
    mirrored(d5, view, sv.get(BrushSetting::OffsetAngle2View).max(zero), flip, m)
}

/// The direction that shifts along the stroke go by: a quarter turn before
/// the stroke.
pub open spec fn stroke_side(dx: Single, dy: Single, m: Answers) -> Single {
    degrees(m.atan2(dy, dx)).minus(Double { bits: QUARTER_TURN }).narrow().rem(
        Single { bits: DEGREES_360 },
    )
}

/// What the offset settings move a dab by, in pixels.
pub open spec fn offsets(
    sv: SettingValues,
    base_radius: Single,
    flip: Single,
    dx: Single,
    dy: Single,
    pen: Single,
    m: Answers,
) -> (Single, Single) {
    let multiplier = m.exp(sv.get(BrushSetting::OffsetMultiplier));
    if !multiplier.finite() {
        (Single { bits: 0 }, Single { bits: 0 })
    } else {
        let d = offset_sum(sv, flip, stroke_side(dx, dy, m), pen, m);
        let scale = base_radius.times(multiplier);
        let most = Single { bits: FURTHEST };
        (
            d.0.times(scale).clamp(most.negate(), most),
            d.1.times(scale).clamp(most.negate(), most),
        )
    }
}

fn sum_offsets<N: Fn(Narrow) -> Single, W: Fn(Wide) -> Double>(
    sv: &SettingValues,
    flip: Single,
    stroke: Single,
    pen: Single,
    math: &Elementary<N, W>,
) -> (d: (Single, Single))
    requires
        math.wf(),
    ensures
        d == offset_sum(*sv, flip, stroke, pen, math.answers()),
{
    let zero = Single { bits: 0 };
    let adj = sv.get(BrushSetting::OffsetAngleAdj);
    let mut d: (Single, Single) = (
        sv.get(BrushSetting::OffsetX),
        sv.get(BrushSetting::OffsetY),
    );
    let along_stroke = sv.get(BrushSetting::OffsetAngle);
    if !along_stroke.same(zero) {
        d = add_polar(d, radians_c(stroke.plus(adj)), along_stroke, math);
    }
    let along_pen = sv.get(BrushSetting::OffsetAngleAsc);
    if !along_pen.same(zero) {
        d = add_polar(d, radians_c(pen.plus(adj)), along_pen, math);
    }
    let along_view = sv.get(BrushSetting::OffsetAngleView);
    if !along_view.same(zero) {
        d = add_polar(d, radians_c(zero.plus(adj)).negate(), along_view, math);
    }
    let across_stroke = sv.get(BrushSetting::OffsetAngle2).max(zero);
    if !across_stroke.same(zero) {
        let a = radians_c(stroke.plus(adj.times(flip)));
        d = add_mirrored(d, a, across_stroke, flip, math);
    }
    let across_pen = sv.get(BrushSetting::OffsetAngle2Asc).max(zero);
    if !across_pen.same(zero) {
        let a = radians_c(pen.plus(adj.times(flip)));
        d = add_mirrored(d, a, across_pen, flip, math);
    }
    let across_view = sv.get(BrushSetting::OffsetAngle2View).max(zero);
    if !across_view.same(zero) {
        d = add_mirrored(d, radians_c(zero.plus(adj)).negate(), across_view, flip, math);
    }
    d
}

pub fn directional_offsets<N: Fn(Narrow) -> Single, W: Fn(Wide) -> Double>(
    sv: &SettingValues,
    base_radius: Single,
    flip: Single,
    dx: Single,
    dy: Single,
    pen: Single,
    math: &Elementary<N, W>,
) -> (d: (Single, Single))
    requires
        math.wf(),
    ensures
        d == offsets(*sv, base_radius, flip, dx, dy, pen, math.answers()),
{
    let multiplier = math.exp(sv.get(BrushSetting::OffsetMultiplier));
    if !multiplier.is_finite() {
        return (Single { bits: 0 }, Single { bits: 0 });
    }
    let stroke = degrees_c(math.atan2(dy, dx)).minus(Double { bits: QUARTER_TURN }).narrow().rem(
        Single { bits: DEGREES_360 },
    );
    let d: (Single, Single) = sum_offsets(sv, flip, stroke, pen, math);
    let scale = base_radius.times(multiplier);
    let most = Single { bits: FURTHEST };
    (d.0.times(scale).clamp(most.negate(), most), d.1.times(scale).clamp(most.negate(), most))
}

/// No dab is moved further than [`FURTHEST`] along either axis.
pub proof fn law_offsets_are_bounded(
    sv: SettingValues,
    base_radius: Single,
    flip: Single,
    dx: Single,
    dy: Single,
    pen: Single,
    m: Answers,
)
    ensures
        ({
            let most = Single { bits: FURTHEST };
            let d = offsets(sv, base_radius, flip, dx, dy, pen, m);
            &&& !d.0.nan() ==> most.negate().le(d.0) && d.0.le(most)
            &&& !d.1.nan() ==> most.negate().le(d.1) && d.1.le(most)
        }),
{
    let most = Single { bits: FURTHEST };
    lemma_magnitude_zero();
    lemma_magnitude_increases(0, FURTHEST as nat, 24);
}

/// Offset settings of zero leave a dab where it is.
pub proof fn law_no_offset_settings_no_offset(
    sv: SettingValues,
    flip: Single,
    stroke: Single,
    pen: Single,
    m: Answers,
)
    requires
        sv.get(BrushSetting::OffsetAngle).same(Single { bits: 0 }),
        sv.get(BrushSetting::OffsetAngleAsc).same(Single { bits: 0 }),
        sv.get(BrushSetting::OffsetAngleView).same(Single { bits: 0 }),
        sv.get(BrushSetting::OffsetAngle2).le(Single { bits: 0 }),
        sv.get(BrushSetting::OffsetAngle2Asc).le(Single { bits: 0 }),
        sv.get(BrushSetting::OffsetAngle2View).le(Single { bits: 0 }),
    ensures
        offset_sum(sv, flip, stroke, pen, m) == (
            sv.get(BrushSetting::OffsetX),
            sv.get(BrushSetting::OffsetY),
        ),
{
    lemma_magnitude_zero();
}

} // verus!
