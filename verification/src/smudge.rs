//! Picking colour up from the canvas.
use crate::brush::{Brush, BrushView};
use crate::color::{to_unit, unit, RgbaF32};
use crate::dab::bucket;
use crate::dab_surface::DabSurface;
use crate::double::Double;
use crate::elementary::{Answers, Elementary, Narrow, Wide};
use crate::rand::SampleRng;
use crate::setting::BrushSetting;
use crate::single::{Single, HALF, ONE};
use crate::spectral::{mix_colors, mixed};
use crate::state::BrushState;
use crate::values::SettingValues;
use vstd::prelude::*;

verus! {

/// 0.01: the least share of the old colour that a dab keeps, and the alpha
/// from which on a picked up colour counts as one.
pub const LEAST_SHARE: u32 = 0x3c23_d70a;

/// 1e-16.
pub const TINY: u32 = 0x24e6_9595;

/// 0.2 and 1000: the least and the greatest radius.
pub const RADIUS_MIN: u32 = 0x3e4c_cccd;

pub const RADIUS_MAX: u32 = 0x447a_0000;

/// A radius from its logarithm.
pub open spec fn radius_of(log: Single, m: Answers) -> Single {
    m.exp(log).clamp(Single { bits: RADIUS_MIN }, Single { bits: RADIUS_MAX })
}

pub fn exp_radius<N: Fn(Narrow) -> Single, W: Fn(Wide) -> Double>(
    log: Single,
    math: &Elementary<N, W>,
) -> (r: Single)
    requires
        math.wf(),
    ensures
        r == radius_of(log, math.answers()),
{
    math.exp(log).clamp(Single { bits: RADIUS_MIN }, Single { bits: RADIUS_MAX })
}

/// Whether a dab picks up colour.
pub open spec fn smudges(b: BrushView, sv: SettingValues) -> bool {
    &&& unit(sv.get(BrushSetting::SmudgeLength)).lt(Single { bits: ONE })
    &&& !b.base(BrushSetting::Smudge).same(Single { bits: 0 }) || b.mapped(BrushSetting::Smudge)
}

/// The share of the old colour that a dab keeps.
pub open spec fn kept_share(sv: SettingValues) -> Single {
    unit(sv.get(BrushSetting::SmudgeLength)).max(Single { bits: LEAST_SHARE })
}

/// How recent the last picked up colour is at this dab.
pub open spec fn recentness(state: BrushState, sv: SettingValues) -> Single {
    state.prev_col_recentness.times(kept_share(sv))
}

/// Whether that is not recent enough, so that the canvas is looked at again.
pub open spec fn stale(state: BrushState, sv: SettingValues, m: Answers) -> bool {
    recentness(state, sv).lt(
        m.pow(
            (Single { bits: HALF }).times(kept_share(sv)),
            sv.get(BrushSetting::SmudgeLengthLog),
        ).min(Single { bits: ONE }).plus(Single { bits: TINY }),
    )
}

/// The radius of the spot that is looked at.
pub open spec fn spot_radius(sv: SettingValues, radius: Single, m: Answers) -> Single {
    radius.times(m.exp(sv.get(BrushSetting::SmudgeRadiusLog))).clamp(
        Single { bits: RADIUS_MIN },
        Single { bits: RADIUS_MAX },
    )
}

/// Whether the canvas is too transparent for the dab to be drawn, or, for a
/// negative setting, too opaque.
pub open spec fn barred(sv: SettingValues, alpha: Single) -> bool {
    let zero = Single { bits: 0 };
    let limit = sv.get(BrushSetting::SmudgeTransparency);
    ||| zero.lt(limit) && alpha.lt(limit)
    ||| limit.lt(zero) && limit.negate().lt(alpha)
}

/// The memory with another colour in the bucket.
pub open spec fn with_bucket(state: BrushState, c: Seq<Single>) -> BrushState {
    BrushState {
        smudge_ra: c[0],
        smudge_ga: c[1],
        smudge_ba: c[2],
        smudge_a: c[3],
        ..state
    }
}

/// One channel of the bucket after a colour is poured in.
pub open spec fn topped_up(old: Single, share: Single, new: Single, new_share: Single) -> Single {
    old.times(share).plus(new.times(new_share))
}

/// A colour poured into the bucket, which keeps `share` of the old one.
pub open spec fn poured(
    state: BrushState,
    c: RgbaF32,
    share: Single,
    paint: Single,
) -> BrushState {
    let zero = Single { bits: 0 };
    let one = Single { bits: ONE };
    if zero.lt(paint) {
        if (Single { bits: LEAST_SHARE }).lt(c.a) {
            with_bucket(state, mixed(bucket(state), seq![c.r, c.g, c.b, c.a], share, paint))
        } else {
            BrushState { smudge_a: state.smudge_a.plus(c.a).times(Single { bits: HALF }), ..state }
        }
    } else {
        let new_share = one.minus(share).times(c.a);
        BrushState {
            smudge_ra: topped_up(state.smudge_ra, share, c.r, new_share),
            smudge_ga: topped_up(state.smudge_ga, share, c.g, new_share),
            smudge_ba: topped_up(state.smudge_ba, share, c.b, new_share),
            smudge_a: unit(state.smudge_a.times(share).plus(new_share)),
            ..state
        }
    }
}

fn pour(state: &mut BrushState, c: RgbaF32, share: Single, paint: Single)
    ensures
        *final(state) == poured(*old(state), c, share, paint),
{
    let zero = Single { bits: 0 };
    let one = Single { bits: ONE };
    if zero.lt(paint) {
        if (Single { bits: LEAST_SHARE }).lt(c.a) {
            let a: [Single; 4] = [
                state.smudge_ra,
                state.smudge_ga,
                state.smudge_ba,
                state.smudge_a,
            ];
            let b: [Single; 4] = [c.r, c.g, c.b, c.a];
            assert(a@ =~= bucket(*state));
            assert(b@ =~= seq![c.r, c.g, c.b, c.a]);
            let d: [Single; 4] = mix_colors(a, b, share, paint);
            state.smudge_ra = d[0];
            state.smudge_ga = d[1];
            state.smudge_ba = d[2];
            state.smudge_a = d[3];
        } else {
            state.smudge_a = state.smudge_a.plus(c.a).times(Single { bits: HALF });
        }
    } else {
        let new_share = one.minus(share).times(c.a);
        state.smudge_ra = state.smudge_ra.times(share).plus(c.r.times(new_share));
        state.smudge_ga = state.smudge_ga.times(share).plus(c.g.times(new_share));
        state.smudge_ba = state.smudge_ba.times(share).plus(c.b.times(new_share));
        state.smudge_a = to_unit(state.smudge_a.times(share).plus(new_share));
    }
}

/// The memory after the canvas was looked at.
pub open spec fn looked(state: BrushState, c: RgbaF32) -> BrushState {
    BrushState { prev_col_r: c.r, prev_col_g: c.g, prev_col_b: c.b, prev_col_a: c.a, ..state }
}

/// The memory after a dab that picks up colour, where the canvas, if it is
/// looked at, shows `c`; and whether the dab is dropped.
pub open spec fn picked_up(
    state: BrushState,
    sv: SettingValues,
    c: RgbaF32,
    m: Answers,
) -> (BrushState, bool) {
    let zero = Single { bits: 0 };
    let paint = unit(sv.get(BrushSetting::Paint));
    let age = recentness(state, sv);
    if stale(state, sv, m) {
        let s = BrushState { prev_col_recentness: Single { bits: ONE }, ..state };
        if barred(sv, c.a) {
            (s, true)
        } else {
            let share = if age.same(zero) {
                zero
            } else {
                kept_share(sv)
            };
            (poured(looked(s, c), c, share, paint), false)
        }
    } else {
        let s = BrushState { prev_col_recentness: age, ..state };
        let last = RgbaF32 { r: s.prev_col_r, g: s.prev_col_g, b: s.prev_col_b, a: s.prev_col_a };
        (poured(s, last, kept_share(sv), paint), false)
    }
}

/// Takes in what the canvas shows, if it is looked at.
pub fn pick_up<N: Fn(Narrow) -> Single, W: Fn(Wide) -> Double>(
    state: &mut BrushState,
    sv: &SettingValues,
    sample: Option<RgbaF32>,
    math: &Elementary<N, W>,
) -> (dropped: bool)
    requires
        math.wf(),
        sample is Some <==> stale(*old(state), *sv, math.answers()),
    ensures
        (*final(state), dropped) == picked_up(*old(state), *sv, sample->0, math.answers()),
{
    let zero = Single { bits: 0 };
    let paint = to_unit(sv.get(BrushSetting::Paint));
    let mut share = to_unit(sv.get(BrushSetting::SmudgeLength)).max(Single { bits: LEAST_SHARE });
    let age = state.prev_col_recentness.times(share);
    match sample {
        Some(c) => {
            state.prev_col_recentness = Single { bits: ONE };
            let limit = sv.get(BrushSetting::SmudgeTransparency);
            if (zero.lt(limit) && c.a.lt(limit)) || (limit.lt(zero) && limit.negate().lt(c.a)) {
                return true;
            }
            if age.same(zero) {
                share = zero;
            }
            state.prev_col_r = c.r;
            state.prev_col_g = c.g;
            state.prev_col_b = c.b;
            state.prev_col_a = c.a;
            pour(state, c, share, paint);
            false
        },
        None => {
            state.prev_col_recentness = age;
            let last = RgbaF32 {
                r: state.prev_col_r,
                g: state.prev_col_g,
                b: state.prev_col_b,
                a: state.prev_col_a,
            };
            pour(state, last, share, paint);
            false
        },
    }
}

/// What a surface shows in a spot, and the numbers that are left: mixed like
/// pigments where the brush paints with pigments.
pub open spec fn seen<S: DabSurface>(
    shown: S::Shown,
    sv: SettingValues,
    x: Single,
    y: Single,
    radius: Single,
    rng: SampleRng,
) -> (RgbaF32, SampleRng) {
    let paint = unit(sv.get(BrushSetting::Paint));
    if (Single { bits: 0 }).lt(paint) {
        S::pigment_in(shown, x, y, radius, paint, rng)
    } else {
        (S::color_in(shown, x, y, radius), rng)
    }
}

/// The memory and the sampling numbers after the colour of a dab was picked
/// up, and whether the dab is dropped.
pub open spec fn smudge_step<S: DabSurface>(
    b: BrushView,
    sv: SettingValues,
    state: BrushState,
    shown: S::Shown,
    rng: SampleRng,
    x: Single,
    y: Single,
    radius: Single,
    m: Answers,
) -> (BrushState, bool, SampleRng) {
    if !smudges(b, sv) {
        (state, false, rng)
    } else {
        let look = seen::<S>(shown, sv, x, y, spot_radius(sv, radius, m), rng);
        let next = picked_up(state, sv, look.0, m);
        (
            next.0,
            next.1,
            if stale(state, sv, m) {
                look.1
            } else {
                rng
            },
        )
    }
}

/// Picks up the colour for a dab, looking at the surface where the last
/// colour is not recent enough.  Returns whether the dab is dropped.
pub fn update_smudge_color<S: DabSurface, N: Fn(Narrow) -> Single, W: Fn(Wide) -> Double>(
    brush: &Brush,
    sv: &SettingValues,
    state: &mut BrushState,
    surface: &S,
    rng: &mut SampleRng,
    x: Single,
    y: Single,
    radius: Single,
    math: &Elementary<N, W>,
) -> (dropped: bool)
    requires
        brush.wf(),
        surface.ready(),
        old(rng).wf(),
        math.wf(),
    ensures
        final(rng).wf(),
        (*final(state), dropped, *final(rng)) == smudge_step::<S>(
            brush@,
            *sv,
            *old(state),
            surface.shown(),
            *old(rng),
            x,
            y,
            radius,
            math.answers(),
        ),
{
    let zero = Single { bits: 0 };
    let one = Single { bits: ONE };
    let length = to_unit(sv.get(BrushSetting::SmudgeLength));
    let active: bool = !brush.base(BrushSetting::Smudge).same(zero) || brush.is_mapped(
        BrushSetting::Smudge,
    );
    if !(length.lt(one) && active) {
        return false;
    }
    let share = length.max(Single { bits: LEAST_SHARE });
    let age = state.prev_col_recentness.times(share);
    let threshold = math.pow(
        (Single { bits: HALF }).times(share),
        sv.get(BrushSetting::SmudgeLengthLog),
    ).min(one).plus(Single { bits: TINY });
    let sample: Option<RgbaF32> = if age.lt(threshold) {
        let spot = radius.times(math.exp(sv.get(BrushSetting::SmudgeRadiusLog))).clamp(
            Single { bits: RADIUS_MIN },
            Single { bits: RADIUS_MAX },
        );
        let paint = to_unit(sv.get(BrushSetting::Paint));
        if zero.lt(paint) {
            Some(surface.get_color_pigment(x, y, spot, paint, rng))
        } else {
            Some(surface.get_color(x, y, spot))
        }
    } else {
        None
    };
    let ghost before = *state;
    let dropped: bool = pick_up(state, sv, sample, math);
    proof {
        if sample is None {
            assert(!stale(before, *sv, math.answers()));
        }
    }
    dropped
}

} // verus!
