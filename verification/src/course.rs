//! From an event to the dab: what the event aims at, where its simulation
//! starts, where a dab lands and what it is made of.
//!
//! Values are in units of 2^-149, so that one is 2^149.
use crate::brush::BrushView;
use crate::color::unit;
use crate::dab::{dab_at, softened, target_alpha};
use crate::dab_count::started;
use crate::double::Double;
use crate::dynamics::Run;
use crate::elementary::Answers;
use crate::means::{lemma_rest, proper};
use crate::offsets::{law_no_offset_settings_no_offset, offsets, stroke_side, FURTHEST};
use crate::portions::{held_value, lemma_held_value};
use crate::rand::SampleRng;
use crate::range::{
    lemma_finite_or_infinite, lemma_known, lemma_nan_factors, lemma_negate, lemma_no_units,
    lemma_one, lemma_plus_value, lemma_rounded_exact, lemma_times_non_negative, lemma_unit_in_unit,
};
use crate::setting::BrushSetting;
use crate::single::{law_times_commutes, law_times_nothing, lemma_infinity_units, Single, ONE};
use crate::state::BrushState;
use crate::stroke::{aimed, placed, tilt_of, Event};
use crate::values::SettingValues;
use vstd::arithmetic::power2::*;
use vstd::prelude::*;

verus! {

/// An event aims at its own pressure, held to the range of pressures, and at its
/// own tilt.
pub proof fn law_event_aims_at_its_pressure_and_tilt(
    b: BrushView,
    state: BrushState,
    e: Event,
    dtime: Double,
    m: Answers,
)
    requires
        !e.pressure.nan(),
    ensures
        ({
            let goal = aimed(b, state, e, dtime, m).1;
            let (lean, declination, ascension) = tilt_of(e.xtilt, e.ytilt, m);
            &&& goal.pressure.value() == held_value(e.pressure)
            &&& goal.xtilt == e.xtilt
            &&& goal.ytilt == e.ytilt
            &&& goal.tilt == lean
            &&& goal.declination == declination
            &&& goal.ascension == ascension
        }),
{
    lemma_held_value(e.pressure);
}

/// The simulation of an event starts where the one before ended: at its cursor,
/// with the centre of its dabs, the part of a dab that it left over, and the
/// pressure that it is given.
pub proof fn law_event_starts_where_the_last_ended<T>(
    b: BrushView,
    state: BrushState,
    shown: T,
    rng: SampleRng,
    e: Event,
    pressure: Single,
    dtime: Double,
    m: Answers,
)
    ensures
        ({
            let c = started(b, state, shown, rng, e, pressure, dtime, m);
            &&& c.run.x == state.actual_x
            &&& c.run.y == state.actual_y
            &&& c.run.ax == state.actual_dab_x
            &&& c.run.ay == state.actual_dab_y
            &&& c.run.dabs_moved == state.dist_past_dab
            &&& c.run.pressure == pressure
            &&& c.run.dtime_left == dtime
            &&& !c.run.painted
            &&& c.shown == shown
        }),
{
}

/// Settings that leave a dab where the stroke is.
pub open spec fn unmoved(sv: SettingValues) -> bool {
    let none = |s: BrushSetting| !sv.get(s).nan() && sv.get(s).value() == 0;
    &&& none(BrushSetting::OffsetX) && none(BrushSetting::OffsetY)
    &&& none(BrushSetting::OffsetAngle) && none(BrushSetting::OffsetAngleAsc) && none(
        BrushSetting::OffsetAngleView,
    )
    &&& none(BrushSetting::OffsetAngle2) && none(BrushSetting::OffsetAngle2Asc) && none(
        BrushSetting::OffsetAngle2View,
    )
    &&& none(BrushSetting::OffsetByRandom) && none(BrushSetting::RadiusByRandom) && none(
        BrushSetting::OffsetBySpeed,
    )
}

/// A dab that nothing moves lands at the centre of the dabs, with the radius
/// that the settings gave it, and draws no random number.
pub proof fn law_unmoved_dab_lands_at_the_centre(
    state: BrushState,
    sv: SettingValues,
    run: Run,
    base_radius: Single,
    m: Answers,
)
    requires
        unmoved(sv),
        run.ax.finite(),
        run.ay.finite(),
        m.exp(sv.get(BrushSetting::OffsetMultiplier)).finite(),
        base_radius.times(m.exp(sv.get(BrushSetting::OffsetMultiplier))).finite(),
    ensures
        ({
            let (s, p) = placed(state, sv, run, base_radius, m);
            &&& p.x.value() == run.ax.value()
            &&& p.y.value() == run.ay.value()
            &&& p.radius == state.actual_radius
            &&& p.scale == (Single { bits: ONE })
            &&& s == (BrushState { flip: state.flip.negate(), ..state })
        }),
{
    let flip = state.flip.negate();
    lemma_unmoved_offsets(
        sv,
        base_radius,
        flip,
        state.direction_angle_dx,
        state.direction_angle_dy,
        state.ascension,
        m,
    );
    let d = offsets(
        sv,
        base_radius,
        flip,
        state.direction_angle_dx,
        state.direction_angle_dy,
        state.ascension,
        m,
    );
    lemma_one();
    assert(sv.get(BrushSetting::OffsetByRandom).same(Single { bits: 0 }));
    assert(sv.get(BrushSetting::RadiusByRandom).same(Single { bits: 0 }));
    assert(sv.get(BrushSetting::OffsetBySpeed).same(Single { bits: 0 }));
    lemma_plus_value(run.ax, d.0);
    lemma_plus_value(run.ay, d.1);
    lemma_rounded_exact(run.ax);
    lemma_rounded_exact(run.ay);
}

proof fn lemma_unmoved_offsets(
    sv: SettingValues,
    base_radius: Single,
    flip: Single,
    dx: Single,
    dy: Single,
    pen: Single,
    m: Answers,
)
    requires
        unmoved(sv),
        m.exp(sv.get(BrushSetting::OffsetMultiplier)).finite(),
        base_radius.times(m.exp(sv.get(BrushSetting::OffsetMultiplier))).finite(),
    ensures
        ({
            let d = offsets(sv, base_radius, flip, dx, dy, pen, m);
            d.0.finite() && d.0.value() == 0 && d.1.finite() && d.1.value() == 0
        }),
{
    lemma_one();
    law_no_offset_settings_no_offset(sv, flip, stroke_side(dx, dy, m), pen, m);
    let scale = base_radius.times(m.exp(sv.get(BrushSetting::OffsetMultiplier)));
    lemma_nothing_shifts(sv.get(BrushSetting::OffsetX), scale);
    lemma_nothing_shifts(sv.get(BrushSetting::OffsetY), scale);
}

/// Nothing, scaled and held, shifts nothing.
proof fn lemma_nothing_shifts(o: Single, scale: Single)
    requires
        !o.nan(),
        o.value() == 0,
        scale.finite(),
    ensures
        ({
            let most = Single { bits: FURTHEST };
            let d = o.times(scale).clamp(most.negate(), most);
            d.finite() && d.value() == 0
        }),
{
    let most = Single { bits: FURTHEST };
    lemma_one();
    lemma_no_units(o);
    law_times_nothing(o, scale);
    lemma_no_units(o.times(scale));
    lemma_negate(most);
    lemma_known(FURTHEST, 0xca_8000, 137);
    lemma_pow2_pos(137);
}

/// Settings that a dab takes as they are, and that are numbers.
pub open spec fn numbers(sv: SettingValues) -> bool {
    &&& !sv.get(BrushSetting::LockAlpha).nan()
    &&& !sv.get(BrushSetting::Colorize).nan()
    &&& !sv.get(BrushSetting::Posterize).nan()
    &&& !sv.get(BrushSetting::Paint).nan()
    &&& !sv.get(BrushSetting::SnapToPixel).nan()
    &&& !sv.get(BrushSetting::Hardness).nan()
    &&& !sv.get(BrushSetting::Eraser).nan()
    &&& !sv.get(BrushSetting::EllipticalDabRatio).nan()
    &&& !sv.get(BrushSetting::AntiAliasing).nan()
}

/// What a dab takes from its settings, each one held to its range: hardness
/// where nothing softens it, aspect, angle, and the shares; from its place where
/// it is not snapped; and its colour is opaque.
pub proof fn law_dab_takes_its_settings(
    b: BrushView,
    sv: SettingValues,
    state: BrushState,
    x: Single,
    y: Single,
    radius: Single,
    smudge: Single,
    scale: Single,
    m: Answers,
)
    requires
        numbers(sv),
    ensures
        ({
            let u = pow2(149) as int;
            let d = dab_at(b, sv, state, x, y, radius, smudge, scale, m);
            let snap = held_value(sv.get(BrushSetting::SnapToPixel));
            &&& d.lock_alpha.value() == held_value(sv.get(BrushSetting::LockAlpha))
            &&& d.colorize.value() == held_value(sv.get(BrushSetting::Colorize))
            &&& d.posterize.value() == held_value(sv.get(BrushSetting::Posterize))
            &&& d.paint.value() == held_value(sv.get(BrushSetting::Paint))
            &&& d.angle == sv.get(BrushSetting::EllipticalDabAngle)
            &&& d.aspect_ratio.value() == (if sv.get(BrushSetting::EllipticalDabRatio).value() < u {
                u
            } else {
                sv.get(BrushSetting::EllipticalDabRatio).value()
            })
            &&& d.color.a.value() == u
            &&& snap == 0 ==> d.x == x && d.y == y
            &&& sv.get(BrushSetting::AntiAliasing).value() <= 0 && radius.finite() && radius.value()
                >= 0 ==> d.hardness.value() == held_value(sv.get(BrushSetting::Hardness)) && (snap
                == 0 ==> d.radius == radius)
            &&& held_value(sv.get(BrushSetting::Eraser)) == u ==> d.alpha_eraser.nan()
                || d.alpha_eraser.value() == 0
        }),
{
    let u = pow2(149) as int;
    let one = Single { bits: ONE };
    let zero = Single { bits: 0 };
    lemma_one();
    lemma_held_value(sv.get(BrushSetting::LockAlpha));
    lemma_held_value(sv.get(BrushSetting::Colorize));
    lemma_held_value(sv.get(BrushSetting::Posterize));
    lemma_held_value(sv.get(BrushSetting::Paint));
    lemma_held_value(sv.get(BrushSetting::SnapToPixel));
    lemma_held_value(sv.get(BrushSetting::Hardness));
    lemma_held_value(sv.get(BrushSetting::Eraser));
    if sv.get(BrushSetting::AntiAliasing).value() <= 0 && radius.finite() && radius.value() >= 0 {
        lemma_hard_edge(radius, unit(sv.get(BrushSetting::Hardness)), sv);
    }
    if held_value(sv.get(BrushSetting::Eraser)) == u {
        lemma_erased(state, unit(smudge), unit(sv.get(BrushSetting::Eraser)));
    }
}

/// An edge that need not fade is not softened.
proof fn lemma_hard_edge(radius: Single, hardness: Single, sv: SettingValues)
    requires
        !sv.get(BrushSetting::AntiAliasing).nan(),
        sv.get(BrushSetting::AntiAliasing).value() <= 0,
        radius.finite(),
        radius.value() >= 0,
        proper(hardness),
    ensures
        softened(radius, hardness, sv.get(BrushSetting::AntiAliasing).max(Single { bits: 0 })) == (
            radius,
            hardness,
        ),
{
    let zero = Single { bits: 0 };
    let one = Single { bits: ONE };
    lemma_one();
    lemma_rest(hardness);
    lemma_times_non_negative(radius, one.minus(hardness));
}

/// A full eraser leaves no alpha.
proof fn lemma_erased(state: BrushState, smudge: Single, eraser: Single)
    requires
        proper(eraser),
        eraser.value() == pow2(149),
    ensures
        ({
            let kept = (Single { bits: ONE }).minus(eraser);
            let a = target_alpha(state, smudge);
            unit(a.times(kept)).nan() || unit(a.times(kept)).value() == 0
        }),
{
    let one = Single { bits: ONE };
    let kept = one.minus(eraser);
    let a = target_alpha(state, smudge);
    lemma_one();
    lemma_rest(eraser);
    lemma_no_units(kept);
    law_times_commutes(a, kept);
    lemma_infinity_units();
    lemma_unit_in_unit(
        one.minus(smudge).plus(smudge.times(state.smudge_a)),
    );
    if a.nan() {
        lemma_nan_factors(a, kept);
    } else {
        if !a.finite() {
            lemma_finite_or_infinite(a);
        }
        law_times_nothing(kept, a);
        lemma_no_units(kept.times(a));
    }
}

} // verus!
