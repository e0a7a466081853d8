//! What a brush keeps from event to event and from dab to dab.
//!
//! Values are in units of 2^-149, so that one is 2^149.
use crate::brush::BrushView;
use crate::color::unit;
use crate::counting::lemma_counted;
use crate::dab::HAIR;
use crate::dab_surface::DabSurface;
use crate::double::Double;
use crate::dynamics::{
    directed, due, followed, gated, reverses, share_in, slowness, stroked, Goal, Step, RELEASE,
    TENTH,
};
use crate::elementary::Answers;
use crate::means::{lemma_part_way, lemma_proper_product, part_way, proper, size, spans};
use crate::portions::{held_value, lemma_held_value};
use crate::rand::SampleRng;
use crate::range::{
    lemma_finite_or_infinite, lemma_known, lemma_nearest_at_most, lemma_negate, lemma_no_units,
    lemma_one, lemma_plus_near, lemma_plus_value, lemma_rounded_exact, lemma_rounded_monotone,
    lemma_times_near,
};
use crate::rounding::lemma_magnitude_increases;
use crate::setting::BrushSetting;
use crate::single::{
    law_times_commutes, law_times_nothing, lemma_infinity_units, Single, INFINITY, ONE,
};
use crate::smudge::{radius_of, smudge_step};
use crate::state::BrushState;
use crate::stroke::{
    after_event, after_step, aimed, arrived, begun, counted, dabs_due, density, ends_within,
    entry_pressure, last_radius, launched, placed, scattered, simulated, stepped, tilt_of, time_of,
    tracking_noise, tracking_share, windowed, Event, Place, Scene, PAUSE,
};
use crate::values::SettingValues;
use vstd::arithmetic::power2::*;
use vstd::prelude::*;

verus! {

proof fn lemma_smudging_keeps<S: DabSurface>(
    b: BrushView,
    sv: SettingValues,
    state: BrushState,
    shown: S::Shown,
    rng: SampleRng,
    x: Single,
    y: Single,
    radius: Single,
    m: Answers,
)
    ensures
        ({
            let s = smudge_step::<S>(b, sv, state, shown, rng, x, y, radius, m).0;
            &&& s.started == state.started
            &&& s.last_pressure == state.last_pressure
            &&& s.flip == state.flip
            &&& s.rng == state.rng
            &&& s.actual_radius == state.actual_radius
        }),
{
}

/// What a step leaves alone, and what it does with the side of the dabs.
proof fn lemma_step_keeps<S: DabSurface>(b: BrushView, c: Scene<S::Shown>, goal: Goal, m: Answers)
    ensures
        ({
            let next = after_step::<S>(b, c, goal, m).state;
            &&& next.started == c.state.started
            &&& next.last_pressure == c.state.last_pressure
            &&& next.flip == (if due(c.run) {
                c.state.flip.negate()
            } else {
                c.state.flip
            })
        }),
{
    let (state, run) = stepped(b, c.state, c.run, goal, m);
    let sv = state.prev_settings;
    let (s, p) = placed(state, sv, run, goal.base_radius, m);
    lemma_smudging_keeps::<S>(b, sv, s, c.shown, c.rng, p.x, p.y, p.radius, m);
}

/// Dabs are drawn on one side of the stroke and the other by turns: every dab
/// turns the side, and a step without a dab keeps it.
pub proof fn law_dabs_take_sides_by_turns<S: DabSurface>(
    b: BrushView,
    c: Scene<S::Shown>,
    goal: Goal,
    m: Answers,
)
    ensures
        ({
            let next = after_step::<S>(b, c, goal, m).state;
            &&& due(c.run) ==> next.flip.value() == -c.state.flip.value()
            &&& !due(c.run) ==> next.flip == c.state.flip
        }),
{
    lemma_step_keeps::<S>(b, c, goal, m);
    lemma_negate(c.state.flip);
}

proof fn lemma_arrival_keeps<S: DabSurface>(
    b: BrushView,
    c: Scene<S::Shown>,
    goal: Goal,
    m: Answers,
    limit: nat,
)
    ensures
        ({
            let end = arrived::<S>(b, c, goal, m, limit).state;
            &&& end.started == c.state.started
            &&& end.last_pressure == c.state.last_pressure
        }),
    decreases limit,
{
    if limit > 0 {
        lemma_step_keeps::<S>(b, c, goal, m);
        if due(c.run) {
            lemma_arrival_keeps::<S>(
                b,
                after_step::<S>(b, c, goal, m),
                goal,
                m,
                (limit - 1) as nat,
            );
        }
    }
}

/// An event starts from the pressure of the event before, held to the range of
/// pressures.
pub proof fn law_pressure_goes_on_from_event_to_event<S: DabSurface>(
    b: BrushView,
    state: BrushState,
    shown: S::Shown,
    rng: SampleRng,
    e: Event,
    next: Event,
    m: Answers,
)
    requires
        !windowed(state, e.x, e.y, time_of(e), m).2,
        !e.pressure.nan(),
    ensures
        ({
            let after = after_event::<S>(b, state, shown, rng, e, m).state;
            &&& after.started
            &&& entry_pressure(after, next).value() == held_value(e.pressure)
        }),
{
    let (s, dtime, dropped) = windowed(state, e.x, e.y, time_of(e), m);
    let pressure = entry_pressure(state, e);
    let s = BrushState { last_pressure: unit(e.pressure), ..s };
    lemma_held_value(e.pressure);
    if s.started && !(Double { bits: PAUSE }).le(dtime) {
        let (s2, goal) = aimed(b, s, e, dtime, m);
        let run = launched(s2, pressure, dtime);
        let start = counted(b, Scene { state: s2, run, shown, rng }, goal, dtime, m);
        lemma_arrival_keeps::<S>(b, start, goal, m, u64::MAX as nat);
    }
}

/// The beginning of a stroke forgets the one before: only the random numbers,
/// the settings of the last step, the times and the pressure go on.
pub proof fn law_beginning_forgets(
    b: BrushView,
    s: BrushState,
    t: BrushState,
    x: Single,
    y: Single,
    dtime: Double,
    m: Answers,
)
    requires
        s.rng == t.rng,
        s.prev_settings == t.prev_settings,
        s.last_event_time == t.last_event_time,
        s.last_dab_time == t.last_dab_time,
        s.last_pressure == t.last_pressure,
    ensures
        begun(b, s, x, y, dtime, m) == begun(b, t, x, y, dtime, m),
        begun(b, s, x, y, dtime, m).smudge_a.value() == 0,
        begun(b, s, x, y, dtime, m).prev_col_recentness.value() == 0,
        begun(b, s, x, y, dtime, m).dist_past_dab.value() == 0,
        begun(b, s, x, y, dtime, m).norm_speed1_slow.value() == 0,
        begun(b, s, x, y, dtime, m).norm_speed2_slow.value() == 0,
        begun(b, s, x, y, dtime, m).stroke_state.value() == pow2(149),
        !begun(b, s, x, y, dtime, m).stroke_started,
{
    lemma_one();
}

/// The stroke gate opens above the threshold and closes at nine tenths of it,
/// and opening starts the stroke anew.
pub proof fn law_gate_opens_and_closes(state: BrushState, pressure: Single, threshold: Single)
    requires
        proper(pressure),
        proper(threshold),
    ensures
        ({
            let u = pow2(149) as int;
            let s = gated(state, pressure, threshold);
            let (p, t) = (pressure.value(), threshold.value());
            &&& 10000 * (p - t) > 2 * u ==> s.stroke_started
            &&& 10000 * (10 * p - 9 * t) <= 0 ==> !s.stroke_started
            &&& 10 * p > 9 * t + u && p <= t ==> s.stroke_started == state.stroke_started
            &&& !state.stroke_started && s.stroke_started ==> s.stroke_state.value() == 0
            &&& state.stroke_started == s.stroke_started ==> s == state
        }),
{
    let u = pow2(149) as int;
    let hair = Single { bits: HAIR };
    let keep = Single { bits: RELEASE };
    let (p, t) = (pressure.value(), threshold.value());
    lemma_one();
    lemma_known(HAIR, 0xd1_b717, 112);
    lemma_known(RELEASE, 0xe6_6666, 125);
    lemma_pow2_adds(13, 112);
    lemma_pow2_adds(24, 125);
    lemma_pow2_unfold(126);
    lemma_pow2_unfold(150);
    lemma_pow2_unfold(151);
    lemma_pow2_unfold(127);
    lemma_pow2_pos(112);
    lemma_pow2_pos(125);
    assert(pow2(13) == 0x2000 && pow2(24) == 0x100_0000) by {
        lemma2_to64();
    }
    let h = hair.value();
    assert(u <= 10000 * h + pow2(126) && 10000 * h <= u + pow2(126));
    lemma_plus_near(threshold, hair, 151);
    let open = threshold.plus(hair);
    lemma_proper_product(threshold, keep);
    let low = threshold.times(keep);
    let lv = low.value();
    let kv = keep.value();
    assert(size(10 * kv - 9 * u) <= pow2(127));
    assert(size(u * lv - t * kv) <= u * pow2(126));
    assert(size(10 * lv - 9 * t) <= 16 * pow2(127)) by (nonlinear_arith)
        requires
            -(u * pow2(126)) <= u * lv - t * kv <= u * pow2(126),
            -pow2(127) <= 10 * kv - 9 * u <= pow2(127),
            pow2(127) == 2 * pow2(126),
            0 <= t <= u,
            u > 0,
            pow2(126) > 0,
            size(10 * lv - 9 * t) == (if 10 * lv - 9 * t < 0 {
                -(10 * lv - 9 * t)
            } else {
                10 * lv - 9 * t
            }),
    ;
    lemma_plus_near(low, hair, 151);
}

/// Less than a dab is left over when an event has come to its end.
pub proof fn law_less_than_a_dab_is_left_over<S: DabSurface>(
    b: BrushView,
    c: Scene<S::Shown>,
    goal: Goal,
    m: Answers,
    limit: nat,
)
    requires
        ends_within::<S>(b, c, goal, m, limit),
    ensures
        !due(arrived::<S>(b, c, goal, m, limit).run),
    decreases limit,
{
    if due(c.run) {
        law_less_than_a_dab_is_left_over::<S>(
            b,
            after_step::<S>(b, c, goal, m),
            goal,
            m,
            (limit - 1) as nat,
        );
    }
}

/// An event leaves the cursor where slow tracking has brought it: the part of
/// the way from where it was to the event, all of it where there is no slow
/// tracking.
pub proof fn law_cursor_follows_the_events<S: DabSurface>(
    b: BrushView,
    state: BrushState,
    shown: S::Shown,
    rng: SampleRng,
    e: Event,
    pressure: Single,
    dtime: Double,
    m: Answers,
    k: nat,
)
    requires
        24 <= k <= 240,
        proper(tracking_share(b, dtime, m)),
        !(Single { bits: 0x3a83_126f }).lt(tracking_noise(b, m)),
        spans(state.actual_x, k) && spans(e.x, k),
        spans(state.actual_y, k) && spans(e.y, k),
    ensures
        ({
            let after = simulated::<S>(b, state, shown, rng, e, pressure, dtime, m).state;
            let part = tracking_share(b, dtime, m);
            &&& part_way(state.actual_x, e.x, part, after.actual_x, (k - 21) as nat)
            &&& part_way(state.actual_y, e.y, part, after.actual_y, (k - 21) as nat)
            &&& after.last_event_x == e.x
            &&& after.last_event_y == e.y
        }),
{
    let part = tracking_share(b, dtime, m);
    lemma_part_way(state.actual_x, e.x, part, k);
    lemma_part_way(state.actual_y, e.y, part, k);
}

/// A direction has no sense: a step and its reverse turn it alike, unless both
/// are as near to it.
pub proof fn law_direction_has_no_sense(
    state: BrushState,
    sv: SettingValues,
    step: Step,
    back: Step,
    m: Answers,
)
    requires
        back.dx == step.dx.negate(),
        back.dy == step.dy.negate(),
        m.hypot(back.dx, back.dy) == m.hypot(step.dx, step.dy),
        reverses(state, step) || reverses(state, back),
    ensures
        directed(state, sv, step, m).direction_dx == directed(state, sv, back, m).direction_dx,
        directed(state, sv, step, m).direction_dy == directed(state, sv, back, m).direction_dy,
{
    assert(step.dx.negate().negate() == step.dx);
    assert(step.dy.negate().negate() == step.dy);
}

/// Directions follow the step by the lag of the direction filter: the one with a
/// sense follows the step itself, the other the step or its reverse.
pub proof fn law_directions_follow_the_step(
    state: BrushState,
    sv: SettingValues,
    step: Step,
    m: Answers,
    k: nat,
)
    requires
        24 <= k <= 240,
        spans(step.dx, k) && spans(step.dy, k),
        spans(state.direction_angle_dx, k) && spans(state.direction_angle_dy, k),
        spans(state.direction_dx, k) && spans(state.direction_dy, k),
        proper(direction_share(sv, step, m)),
    ensures
        ({
            let s = directed(state, sv, step, m);
            let part = direction_share(sv, step, m);
            let near = (k - 21) as nat;
            let turned = reverses(state, step);
            let (dx, dy) = if turned {
                (step.dx.negate(), step.dy.negate())
            } else {
                (step.dx, step.dy)
            };
            &&& part_way(state.direction_angle_dx, step.dx, part, s.direction_angle_dx, near)
            &&& part_way(state.direction_angle_dy, step.dy, part, s.direction_angle_dy, near)
            &&& part_way(state.direction_dx, dx, part, s.direction_dx, near)
            &&& part_way(state.direction_dy, dy, part, s.direction_dy, near)
        }),
{
    let part = direction_share(sv, step, m);
    lemma_negate(step.dx);
    lemma_negate(step.dy);
    lemma_part_way(state.direction_angle_dx, step.dx, part, k);
    lemma_part_way(state.direction_angle_dy, step.dy, part, k);
    lemma_part_way(state.direction_dx, step.dx, part, k);
    lemma_part_way(state.direction_dy, step.dy, part, k);
    lemma_part_way(state.direction_dx, step.dx.negate(), part, k);
    lemma_part_way(state.direction_dy, step.dy.negate(), part, k);
}

/// The part of the way that a direction goes in a step.
pub open spec fn direction_share(sv: SettingValues, step: Step, m: Answers) -> Single {
    let lag = m.exp(
        slowness(sv, BrushSetting::DirectionFilter).times(Single { bits: 0x3f00_0000 }),
    ).minus(Single { bits: ONE });
    share_in(m.hypot(step.dx, step.dy), lag, m)
}

/// Scattering takes two normal numbers wherever the setting is not zero, and
/// moves the dab only where it is above zero; what it does along one axis does
/// not depend on the other.
pub proof fn law_scattering_takes_two_numbers(
    state: BrushState,
    sv: SettingValues,
    p: Place,
    base_radius: Single,
)
    requires
        !sv.get(BrushSetting::OffsetByRandom).nan(),
        base_radius.finite(),
        state.rng.gauss().finite(),
        state.rng.drawn_gauss().gauss().finite(),
        p.x.finite(),
        p.y.finite(),
    ensures
        ({
            let amount = sv.get(BrushSetting::OffsetByRandom).value();
            let (s, q) = scattered(state, sv, p, base_radius);
            &&& amount == 0 ==> s == state && q == p
            &&& amount != 0 ==> s == (BrushState {
                rng: state.rng.drawn_gauss().drawn_gauss(),
                ..state
            })
            &&& amount < 0 ==> q.x.value() == p.x.value() && q.y.value() == p.y.value()
            &&& q.radius == p.radius && q.scale == p.scale
        }),
{
    let zero = Single { bits: 0 };
    let amount = sv.get(BrushSetting::OffsetByRandom);
    lemma_one();
    if amount.value() < 0 {
        let (g, h) = (state.rng.gauss(), state.rng.drawn_gauss().gauss());
        law_times_nothing(zero, g);
        law_times_nothing(zero, h);
        law_times_commutes(zero, g);
        law_times_commutes(zero, h);
        law_times_nothing(g.times(zero), base_radius);
        law_times_nothing(h.times(zero), base_radius);
        lemma_no_units(g.times(zero).times(base_radius));
        lemma_no_units(h.times(zero).times(base_radius));
        lemma_plus_value(p.x, g.times(zero).times(base_radius));
        lemma_plus_value(p.y, h.times(zero).times(base_radius));
        lemma_rounded_exact(p.x);
        lemma_rounded_exact(p.y);
    }
}

/// A radius is the exponential of its logarithm, from 0.2 to 1000.
pub proof fn law_radius_is_held(log: Single, m: Answers)
    requires
        !m.exp(log).nan(),
    ensures
        ({
            let u = pow2(149) as int;
            let r = radius_of(log, m);
            let e = m.exp(log).value();
            &&& !r.nan()
            &&& 10 * r.value() >= 2 * u - pow2(126)
            &&& r.value() <= 1000 * u
            &&& 10 * e >= 2 * u + pow2(128) && e <= 1000 * u ==> r == m.exp(log)
            &&& 10 * e < 2 * u - pow2(128) ==> size(10 * r.value() - 2 * u) <= pow2(128)
            &&& e > 1000 * u ==> r.value() == 1000 * u
        }),
{
    lemma_one();
    lemma_known(0x3e4c_cccd, 0xcc_cccd, 123);
    lemma_known(0x447a_0000, 0xfa_0000, 135);
    lemma_pow2_adds(26, 123);
    lemma_pow2_adds(14, 135);
    lemma_pow2_adds(3, 123);
    lemma_pow2_adds(5, 123);
    lemma_pow2_pos(123);
    assert(pow2(26) == 0x400_0000 && pow2(14) == 0x4000 && pow2(3) == 8 && pow2(5) == 32) by {
        lemma2_to64();
    }
}

/// A pen that is not tilted stands upright; a tilted one leans by at most one,
/// and its declination falls from 90 degrees by 60 for a full lean.
pub proof fn law_declination_falls_with_the_lean(xtilt: Single, ytilt: Single, m: Answers)
    requires
        !xtilt.nan(),
        !ytilt.nan(),
        xtilt.value() != 0 || ytilt.value() != 0 ==> proper(
            m.sqrt(xtilt.times(xtilt).plus(ytilt.times(ytilt))),
        ),
    ensures
        ({
            let u = pow2(149) as int;
            let (lean, declination, ascension) = tilt_of(xtilt, ytilt, m);
            &&& proper(lean)
            &&& size(declination.value() + 60 * lean.value() - 90 * u) <= pow2(134)
            &&& xtilt.value() == 0 && ytilt.value() == 0 ==> lean.value() == 0
                && declination.value() == 90 * u && ascension.value() == 0
            &&& xtilt.value() != 0 || ytilt.value() != 0 ==> lean.value() == m.sqrt(
                xtilt.times(xtilt).plus(ytilt.times(ytilt)),
            ).value()
        }),
{
    let u = pow2(149) as int;
    let upright = Single { bits: 0x42b4_0000 };
    let full = Single { bits: 0x4270_0000 };
    lemma_one();
    lemma_known(0x42b4_0000, 0xb4_0000, 132);
    lemma_known(0x4270_0000, 0xf0_0000, 131);
    lemma_pow2_adds(17, 132);
    lemma_pow2_adds(18, 131);
    assert(pow2(17) == 0x2_0000 && pow2(18) == 0x4_0000) by {
        lemma2_to64();
    }
    if xtilt.value() != 0 || ytilt.value() != 0 {
        let lean = tilt_of(xtilt, ytilt, m).0;
        assert(proper(lean));
        let lv = lean.value();
        let fv = full.value();
        let p = lv * fv;
        assert(p == 60 * (lv * u)) by (nonlinear_arith)
            requires
                p == lv * (60 * u),
        ;
        assert(lv * u <= u * u) by (nonlinear_arith)
            requires
                0 <= lv <= u,
        ;
        lemma_pow2_adds(6, 149);
        assert(pow2(6) == 64) by {
            lemma2_to64();
        }
        assert(p < pow2(155) * pow2(149)) by (nonlinear_arith)
            requires
                p == 60 * (lv * u),
                lv * u <= u * u,
                pow2(155) == 64 * u,
                pow2(149) == u,
                u > 0,
        ;
        lemma_times_near(lean, full, 155);
        let t = lean.times(full);
        let tv = t.value();
        assert(size(tv - 60 * lv) <= pow2(131)) by (nonlinear_arith)
            requires
                2 * (tv * u) <= 2 * (60 * (lv * u)) + u * pow2(131),
                2 * (60 * (lv * u)) <= 2 * (tv * u) + u * pow2(131),
                size(tv - 60 * lv) == (if tv - 60 * lv < 0 {
                    -(tv - 60 * lv)
                } else {
                    tv - 60 * lv
                }),
                u > 0,
        ;
        lemma_negate(t);
        lemma_pow2_adds(7, 149);
        assert(pow2(7) == 128) by {
            lemma2_to64();
        }
        lemma_pow2_unfold(132);
        lemma_pow2_unfold(133);
        lemma_pow2_unfold(134);
        lemma_pow2_adds(18, 131);
        lemma_pow2_pos(131);
        lemma_plus_near(upright, t.negate(), 156);
    }
}

/// The stroke stays in its period: it is not beyond it, or it is held at its end
/// where the period is long; and it never goes back but around.
pub proof fn law_stroke_stays_in_its_period(
    state: BrushState,
    sv: SettingValues,
    step: Step,
    base_radius: Single,
    m: Answers,
)
    requires
        slowness(sv, BrushSetting::StrokeHoldtime).finite(),
        proper(state.stroke_state),
        proper(stroke_part(sv, step, base_radius, m)),
    ensures
        ({
            let u = pow2(149) as int;
            let r = stroked(state, sv, step, base_radius, m);
            let period = (Single { bits: ONE }).plus(slowness(sv, BrushSetting::StrokeHoldtime));
            let (old, part) = (
                state.stroke_state.value(),
                stroke_part(sv, step, base_radius, m).value(),
            );
            &&& !r.nan()
            &&& 0 <= r.value()
            &&& r.le(period) || (10 * period.value() > 100 * u && r.value() == u)
            &&& old + part + pow2(126) < u ==> size(r.value() - (old + part)) <= pow2(126)
        }),
{
    let u = pow2(149) as int;
    let zero = Single { bits: 0 };
    let one = Single { bits: ONE };
    let hold = slowness(sv, BrushSetting::StrokeHoldtime);
    let period = one.plus(hold);
    let part = stroke_part(sv, step, base_radius, m);
    let sum = state.stroke_state.plus(part);
    lemma_one();
    lemma_infinity_units();
    lemma_known(0x412e_6666, 0xae_6666, 129);
    lemma_pow2_adds(20, 129);
    lemma_pow2_pos(129);
    lemma_pow2_unfold(150);
    lemma_pow2_unfold(151);
    lemma_pow2_unfold(126);
    lemma_pow2_unfold(127);
    lemma_pow2_pos(125);
    assert(pow2(20) == 0x10_0000) by {
        lemma2_to64();
    }
    lemma_pow2_strictly_increases(127, 149);
    lemma_pow2_strictly_increases(151, 277);
    lemma_plus_near(state.stroke_state, part, 151);
    lemma_plus_value(state.stroke_state, part);
    lemma_rounded_monotone(0, state.stroke_state.value() + part.value());
    lemma_rounded_exact(zero);
    assert(hold.value() >= 0);
    lemma_plus_value(one, hold);
    lemma_rounded_monotone(u, u + hold.value());
    lemma_rounded_exact(one);
    assert(period.value() >= u);
    if period.le(sum) {
        assert(period.finite()) by {
            if !period.finite() {
                lemma_finite_or_infinite(period);
                lemma_pow2_strictly_increases(151, 277);
            }
        }
        let r = sum.rem(period);
        reveal(Single::rem_spec);
        lemma_no_units(period);
        let n = sum.units() % period.units();
        vstd::arithmetic::div_mod::lemma_mod_bound(sum.units() as int, period.units() as int);
        lemma_nearest_at_most(n, 1, period.mag());
    }
    if state.stroke_state.value() + part.value() < u {
        lemma_plus_near(state.stroke_state, part, 150);
    }
}

/// By how much a step brings the stroke on.
pub open spec fn stroke_part(
    sv: SettingValues,
    step: Step,
    base_radius: Single,
    m: Answers,
) -> Single {
    m.hypot(
        step.dx.over(step.time).over(base_radius),
        step.dy.over(step.time).over(base_radius),
    ).times(step.time).times(m.exp(sv.get(BrushSetting::StrokeDurationLogarithmic).negate()))
}

/// After a step the memory holds what the settings of the step say: the radius
/// of its logarithm, the ratio of the ellipse, and the custom input on its way
/// to the setting, by its own lag.
pub proof fn law_memory_follows_the_settings(
    state: BrushState,
    sv: SettingValues,
    step: Step,
    base_radius: Single,
    m: Answers,
    k: nat,
)
    requires
        24 <= k <= 240,
        spans(state.custom_input, k) && spans(sv.get(BrushSetting::CustomInput), k),
        proper(
            share_in(Single { bits: TENTH }, slowness(sv, BrushSetting::CustomInputSlowness), m),
        ),
    ensures
        ({
            let s = followed(state, sv, step, base_radius, m);
            let part = share_in(
                Single { bits: TENTH },
                slowness(sv, BrushSetting::CustomInputSlowness),
                m,
            );
            &&& part_way(
                state.custom_input,
                sv.get(BrushSetting::CustomInput),
                part,
                s.custom_input,
                (k - 21) as nat,
            )
            &&& s.actual_radius == radius_of(sv.get(BrushSetting::Radius), m)
            &&& s.actual_elliptical_ratio == sv.get(BrushSetting::EllipticalDabRatio)
            &&& s.prev_settings == sv
            &&& s.stroke_started == state.stroke_started
            &&& s.rng == state.rng
        }),
{
    let part = share_in(
        Single { bits: TENTH },
        slowness(sv, BrushSetting::CustomInputSlowness),
        m,
    );
    lemma_part_way(state.custom_input, sv.get(BrushSetting::CustomInput), part, k);
}

/// The dabs that are due on a way, where they come by the radius alone, are its
/// length in radii times their density, to within a part in 2^22 and a few
/// units.
pub proof fn law_dabs_are_counted_in_radii(
    b: BrushView,
    state: BrushState,
    dx: Single,
    dy: Single,
    dt: Single,
    m: Answers,
)
    requires
        !(Single { bits: ONE }).lt(state.actual_elliptical_ratio),
        density(state.dabs_per_basic_radius, b.base(BrushSetting::DabsPerBasicRadius)).value() == 0,
        !density(
            state.dabs_per_basic_radius,
            b.base(BrushSetting::DabsPerBasicRadius),
        ).nan(),
        !state.dabs_per_second.nan() && state.dabs_per_second.value() == 0,
        dt.finite(),
        ({
            let h = m.hypot(dx, dy);
            let base = radius_of(b.base(BrushSetting::Radius), m);
            let r = last_radius(state, base);
            let k = density(
                state.dabs_per_actual_radius,
                b.base(BrushSetting::DabsPerActualRadius),
            );
            &&& h.finite() && h.value() >= 0
            &&& r.finite() && r.value() > 0
            &&& k.finite() && k.value() >= 0
            &&& h.over(r).finite() && h.over(r).times(k).finite() && h.over(base).finite()
        }),
    ensures
        ({
            let u = pow2(149) as int;
            let h = m.hypot(dx, dy).value();
            let r = last_radius(state, radius_of(b.base(BrushSetting::Radius), m)).value();
            let k = density(
                state.dabs_per_actual_radius,
                b.base(BrushSetting::DabsPerActualRadius),
            ).value();
            let a = dabs_due(b, state, dx, dy, dt, m).value();
            0x40_0000 * size(u * (a * r) - u * (h * k)) <= u * (h * k) + 0x40_0000 * (r * k + u * r)
        }),
{
    let h = m.hypot(dx, dy);
    let base = radius_of(b.base(BrushSetting::Radius), m);
    let r = last_radius(state, base);
    let k = density(state.dabs_per_actual_radius, b.base(BrushSetting::DabsPerActualRadius));
    let none = density(state.dabs_per_basic_radius, b.base(BrushSetting::DabsPerBasicRadius));
    let a = h.over(r).times(k);
    lemma_one();
    lemma_counted(h, r, k);
    lemma_no_units(none);
    lemma_no_units(state.dabs_per_second);
    law_times_commutes(h.over(base), none);
    law_times_nothing(none, h.over(base));
    law_times_commutes(dt, state.dabs_per_second);
    law_times_nothing(state.dabs_per_second, dt);
    let (x, y) = (h.over(base).times(none), dt.times(state.dabs_per_second));
    lemma_no_units(x);
    lemma_no_units(y);
    lemma_plus_value(a, x);
    lemma_rounded_exact(a);
    let s = a.plus(x);
    assert(s.finite()) by {
        if !s.finite() {
            lemma_finite_or_infinite(s);
            lemma_infinity_units();
            lemma_magnitude_increases(a.mag(), INFINITY as nat, 24);
        }
    }
    lemma_plus_value(s, y);
    lemma_rounded_exact(s);
    let (av, rv, hv, kv) = (a.value(), r.value(), h.value(), k.value());
    assert(hv * kv >= 0 && rv * kv >= 0 && av * rv >= 0) by (nonlinear_arith)
        requires
            hv >= 0,
            kv >= 0,
            rv > 0,
            av >= 0,
    ;
}

} // verus!
