//! What happens between two events: place, pressure and tilt go the same part
//! of their ways from dab to dab.
use crate::angles::{attack, axis, heading, shortest_turn, speed_value, wrapped};
use crate::brush::BrushView;
use crate::counting::lemma_part_of_dab;
use crate::dab_surface::DabSurface;
use crate::dynamics::{
    due, entered, grid_place, grid_scale, moved, next_step, share_in, slowness, sped, step_inputs,
    Goal, Run, Step,
};
use crate::elementary::Answers;
use crate::evaluator::{added, evaluated};
use crate::input::{BrushInput, NUM_INPUTS};
use crate::mapping::SettingView;
use crate::means::{
    lemma_part_added, lemma_part_way, lemma_rest, part_added, part_way, proper, size, spans,
};
use crate::pace::lemma_smudge_frame;
use crate::range::{lemma_known, lemma_one};
use crate::setting::{BrushSetting, NUM_SETTINGS};
use crate::single::{Single, ONE};
use crate::state::BrushState;
use crate::stroke::{after_step, placed, stepped, Scene};
use crate::values::{lemma_settings_with, SettingValues};
use vstd::arithmetic::power2::*;
use vstd::prelude::*;

verus! {

/// What drawing a dab leaves alone in a run, and of the tilt.
proof fn lemma_dab_keeps_course<S: DabSurface>(
    b: BrushView,
    c: Scene<S::Shown>,
    goal: Goal,
    m: Answers,
)
    ensures
        ({
            let d = after_step::<S>(b, c, goal, m);
            let (state, run) = stepped(b, c.state, c.run, goal, m);
            &&& d.run.x == run.x
            &&& d.run.y == run.y
            &&& d.run.ax == run.ax
            &&& d.run.ay == run.ay
            &&& d.run.pressure == run.pressure
            &&& d.state.ascension == state.ascension
            &&& d.state.declination == state.declination
            &&& d.state.declination_x == state.declination_x
            &&& d.state.declination_y == state.declination_y
            &&& d.state.prev_settings == state.prev_settings
        }),
{
    let (state, run) = stepped(b, c.state, c.run, goal, m);
    let sv = state.prev_settings;
    let (s, p) = placed(state, sv, run, goal.base_radius, m);
    lemma_smudge_frame::<S>(b, sv, s, c.shown, c.rng, p.x, p.y, p.radius, m);
}

/// A step that goes the part `frac` of the way that is left moves the cursor
/// by that part, and the pressure by the same part of the way to the pressure
/// of the event: along an event the pressure tapers from the one before.
///
/// Places are of up to 2^k units; both are exact to a part in 2^21 of that.
pub proof fn law_step_interpolates<S: DabSurface>(
    b: BrushView,
    c: Scene<S::Shown>,
    goal: Goal,
    m: Answers,
    k: nat,
)
    requires
        proper(next_step(c.run, goal).frac),
        24 <= k <= 240,
        spans(c.run.x, k) && spans(goal.x, k),
        spans(c.run.y, k) && spans(goal.y, k),
        proper(c.run.pressure) && proper(goal.pressure),
    ensures
        ({
            let next = after_step::<S>(b, c, goal, m).run;
            let part = next_step(c.run, goal).frac;
            &&& part_way(c.run.x, goal.x, part, next.x, (k - 21) as nat)
            &&& part_way(c.run.y, goal.y, part, next.y, (k - 21) as nat)
            &&& part_way(c.run.pressure, goal.pressure, part, next.pressure, 128)
            &&& next.pressure.value() >= 0
            &&& part.value() == 0 ==> next.pressure.value() == c.run.pressure.value()
            &&& c.run.pressure.value() == goal.pressure.value() ==> next.pressure.value()
                == goal.pressure.value()
        }),
{
    let part = next_step(c.run, goal).frac;
    lemma_dab_keeps_course::<S>(b, c, goal, m);
    lemma_step_place(b, c.state, c.run, goal, m);
    lemma_part_way(c.run.x, goal.x, part, k);
    lemma_part_way(c.run.y, goal.y, part, k);
    lemma_tapered(c.run.pressure, goal.pressure, part);
}

/// Where a step leads.
proof fn lemma_step_place(b: BrushView, state: BrushState, run: Run, goal: Goal, m: Answers)
    ensures
        ({
            let part = next_step(run, goal).frac;
            let next = stepped(b, state, run, goal, m).1;
            let way = part.times(goal.pressure.minus(run.pressure));
            &&& next.x == run.x.plus(part.times(goal.x.minus(run.x)))
            &&& next.y == run.y.plus(part.times(goal.y.minus(run.y)))
            &&& next.pressure == run.pressure.plus(way).max(Single { bits: 0 })
        }),
{
}

/// A pressure that goes a part of the way to another.
proof fn lemma_tapered(from: Single, to: Single, part: Single)
    requires
        proper(from) && proper(to) && proper(part),
    ensures
        ({
            let r = from.plus(part.times(to.minus(from))).max(Single { bits: 0 });
            &&& part_way(from, to, part, r, 128)
            &&& r.value() >= 0
            &&& part.value() == 0 ==> r.value() == from.value()
            &&& from.value() == to.value() ==> r.value() == to.value()
        }),
{
    lemma_one();
    lemma_part_way(from, to, part, 149);
    let u = pow2(149) as int;
    let (f, p, g) = (part.value(), from.value(), to.value());
    assert((u - f) * p + f * g >= 0) by (nonlinear_arith)
        requires
            0 <= f <= u,
            p >= 0,
            g >= 0,
    ;
    let r = from.plus(part.times(to.minus(from)));
    if r.value() < 0 {
        assert(u * r.value() <= 0) by (nonlinear_arith)
            requires
                r.value() < 0,
                u > 0,
        ;
        assert(u * 0 == 0);
    }
}

/// The part of the way that a step goes: up to the next dab where one is due,
/// that is to where the dabs that were due before and those on the way make
/// one; and the whole of it where none is due.
pub proof fn law_step_goes_to_the_next_dab(run: Run, goal: Goal)
    requires
        proper(run.dabs_moved),
        run.dabs_todo.finite(),
        due(run) ==> 0 < run.dabs_todo.value() && next_step(run, goal).ddab.value()
            <= run.dabs_todo.value(),
    ensures
        ({
            let u = pow2(149) as int;
            let part = next_step(run, goal).frac;
            let (moved, todo) = (run.dabs_moved.value(), run.dabs_todo.value());
            &&& proper(part)
            &&& next_step(run, goal).drawing == due(run)
            &&& !due(run) ==> part == (Single { bits: ONE })
            &&& due(run) ==> size(u * moved + part.value() * todo - u * u) <= (todo + u) * pow2(125)
        }),
{
    let u = pow2(149) as int;
    lemma_one();
    if due(run) {
        let step = next_step(run, goal);
        lemma_part_of_dab(run.dabs_moved, step.ddab, run.dabs_todo);
        let (m, t, d) = (run.dabs_moved.value(), run.dabs_todo.value(), step.ddab.value());
        let w = pow2(125) as int;
        assert(-(u * w) <= u * m + d * u - u * u <= u * w) by (nonlinear_arith)
            requires
                -w <= d - (u - m) <= w,
                u > 0,
        ;
        assert((t + u) * w == t * w + u * w) by (nonlinear_arith);
    }
}

/// The tilt goes the same part of its way: declination towards that of the
/// event, along both axes towards the tilt of the event in degrees, 60 for a
/// full tilt, and ascension by that part of the shortest turn.
pub proof fn law_step_interpolates_tilt<S: DabSurface>(
    b: BrushView,
    c: Scene<S::Shown>,
    goal: Goal,
    m: Answers,
    k: nat,
)
    requires
        proper(next_step(c.run, goal).frac),
        24 <= k <= 240,
        spans(c.state.declination, k) && spans(goal.declination, k),
        spans(c.state.declination_x, k) && spans(goal.xtilt.times(Single { bits: 0x4270_0000 }), k),
        spans(c.state.declination_y, k) && spans(goal.ytilt.times(Single { bits: 0x4270_0000 }), k),
        spans(c.state.ascension, k) && spans(shortest_turn(c.state.ascension, goal.ascension), k),
    ensures
        ({
            let next = after_step::<S>(b, c, goal, m).state;
            let part = next_step(c.run, goal).frac;
            let sixty = Single { bits: 0x4270_0000 };
            let near = (k - 21) as nat;
            let turn = shortest_turn(c.state.ascension, goal.ascension);
            &&& sixty.value() == 60 * pow2(149)
            &&& part_way(c.state.declination, goal.declination, part, next.declination, near)
            &&& part_way(
                c.state.declination_x,
                goal.xtilt.times(sixty),
                part,
                next.declination_x,
                near,
            )
            &&& part_way(
                c.state.declination_y,
                goal.ytilt.times(sixty),
                part,
                next.declination_y,
                near,
            )
            &&& part_added(c.state.ascension, turn, part, next.ascension, near)
        }),
{
    let part = next_step(c.run, goal).frac;
    let sixty = Single { bits: 0x4270_0000 };
    lemma_known(0x4270_0000, 0xf0_0000, 131);
    lemma_pow2_adds(18, 131);
    assert(pow2(18) == 0x4_0000) by {
        lemma2_to64();
    }
    lemma_dab_keeps_course::<S>(b, c, goal, m);
    lemma_part_way(c.state.declination, goal.declination, part, k);
    lemma_part_way(c.state.declination_x, goal.xtilt.times(sixty), part, k);
    lemma_part_way(c.state.declination_y, goal.ytilt.times(sixty), part, k);
    lemma_part_added(
        c.state.ascension,
        shortest_turn(c.state.ascension, goal.ascension),
        part,
        k,
    );
}

/// What a brush follows with a lag goes the part of its way that the time
/// leaves of an exponential decay: the part and the answer for the exponential
/// make one.  Without a lag it goes all the way.
pub proof fn law_lag_is_an_exponential_decay(t: Single, slow: Single, m: Answers)
    requires
        (Single { bits: 0x3a83_126f }).lt(slow) ==> proper(m.exp(t.negate().over(slow))),
    ensures
        proper(share_in(t, slow, m)),
        (Single { bits: 0x3a83_126f }).lt(slow) ==> size(
            share_in(t, slow, m).value() + m.exp(t.negate().over(slow)).value() - pow2(149),
        ) <= pow2(125),
        !(Single { bits: 0x3a83_126f }).lt(slow) ==> share_in(t, slow, m) == (Single { bits: ONE }),
{
    lemma_one();
    if (Single { bits: 0x3a83_126f }).lt(slow) {
        lemma_rest(m.exp(t.negate().over(slow)));
    }
}

/// The centre of the dabs goes towards the cursor, by the lag per dab that the
/// settings give: all the way where that is none.
pub proof fn law_dabs_follow_the_cursor<S: DabSurface>(
    b: BrushView,
    c: Scene<S::Shown>,
    goal: Goal,
    m: Answers,
    k: nat,
)
    requires
        24 <= k <= 240,
        spans(c.run.ax, k) && spans(c.run.ay, k),
        spans(after_step::<S>(b, c, goal, m).run.x, k),
        spans(after_step::<S>(b, c, goal, m).run.y, k),
        ({
            let sv = after_step::<S>(b, c, goal, m).state.prev_settings;
            proper(
                share_in(
                    next_step(c.run, goal).ddab,
                    slowness(sv, BrushSetting::SlowTrackingPerDab),
                    m,
                ),
            )
        }),
    ensures
        ({
            let next = after_step::<S>(b, c, goal, m);
            let part = share_in(
                next_step(c.run, goal).ddab,
                slowness(next.state.prev_settings, BrushSetting::SlowTrackingPerDab),
                m,
            );
            &&& part_way(c.run.ax, next.run.x, part, next.run.ax, (k - 21) as nat)
            &&& part_way(c.run.ay, next.run.y, part, next.run.ay, (k - 21) as nat)
        }),
{
    let next = after_step::<S>(b, c, goal, m);
    let part = share_in(
        next_step(c.run, goal).ddab,
        slowness(next.state.prev_settings, BrushSetting::SlowTrackingPerDab),
        m,
    );
    lemma_dab_keeps_course::<S>(b, c, goal, m);
    lemma_part_way(c.run.ax, next.run.x, part, k);
    lemma_part_way(c.run.ay, next.run.y, part, k);
}

/// Speed and velocity follow what the step makes of the way in its time, by the
/// lags that the settings give; speed is how long the velocity is.
pub proof fn law_speed_follows_the_step(
    state: BrushState,
    sv: SettingValues,
    step: Step,
    m: Answers,
    k: nat,
)
    requires
        24 <= k <= 240,
        ({
            let (vx, vy) = (step.dx.over(step.time), step.dy.over(step.time));
            let speed = m.hypot(vx, vy);
            &&& spans(vx, k) && spans(vy, k) && spans(speed, k)
            &&& spans(state.norm_dx_slow, k) && spans(state.norm_dy_slow, k)
            &&& spans(state.norm_speed1_slow, k) && spans(state.norm_speed2_slow, k)
        }),
        proper(share_in(step.time, slowness(sv, BrushSetting::Speed1Slowness), m)),
        proper(share_in(step.time, slowness(sv, BrushSetting::Speed2Slowness), m)),
    ensures
        ({
            let (vx, vy) = (step.dx.over(step.time), step.dy.over(step.time));
            let speed = m.hypot(vx, vy);
            let s = sped(state, sv, step, m);
            let near = (k - 21) as nat;
            let part1 = share_in(step.time, slowness(sv, BrushSetting::Speed1Slowness), m);
            let part2 = share_in(step.time, slowness(sv, BrushSetting::Speed2Slowness), m);
            &&& part_way(state.norm_speed1_slow, speed, part1, s.norm_speed1_slow, near)
            &&& part_way(state.norm_speed2_slow, speed, part2, s.norm_speed2_slow, near)
            &&& forall|part: Single|
                #![trigger part_way(state.norm_dx_slow, vx, part, s.norm_dx_slow, near)]
                proper(part) && part == velocity_share(sv, step, m) ==> part_way(
                    state.norm_dx_slow,
                    vx,
                    part,
                    s.norm_dx_slow,
                    near,
                ) && part_way(state.norm_dy_slow, vy, part, s.norm_dy_slow, near)
        }),
{
    let (vx, vy) = (step.dx.over(step.time), step.dy.over(step.time));
    let speed = m.hypot(vx, vy);
    lemma_part_way(
        state.norm_speed1_slow,
        speed,
        share_in(step.time, slowness(sv, BrushSetting::Speed1Slowness), m),
        k,
    );
    lemma_part_way(
        state.norm_speed2_slow,
        speed,
        share_in(step.time, slowness(sv, BrushSetting::Speed2Slowness), m),
        k,
    );
    let part = velocity_share(sv, step, m);
    if proper(part) {
        lemma_part_way(state.norm_dx_slow, vx, part, k);
        lemma_part_way(state.norm_dy_slow, vy, part, k);
    }
}

/// The part of the way that the smoothed velocity goes in a step.
pub open spec fn velocity_share(sv: SettingValues, step: Step, m: Answers) -> Single {
    let one = Single { bits: ONE };
    let lag = m.exp(
        sv.get(BrushSetting::OffsetBySpeedSlowness).times(Single { bits: 0x3c23_d70a }),
    ).minus(one).max(Single { bits: 0x3b03_126f });
    one.minus(m.exp(step.time.negate().over(lag)))
}

/// Every input of a step is what it is called: the pressure with its gain, the
/// speeds by their own gammas, the numbers of the memory, and of the angles and
/// the grid each one its own.
pub proof fn law_inputs_are_what_they_are_called(
    b: BrushView,
    state: BrushState,
    run: Run,
    goal: Goal,
    m: Answers,
)
    ensures
        ({
            let v = step_inputs(b, state, run, goal, m);
            let at = |x: BrushInput| v[x.index_spec() as int];
            &&& v.len() == NUM_INPUTS
            &&& at(BrushInput::Pressure) == run.pressure.times(goal.pressure_gain)
            &&& at(BrushInput::Speed1) == speed_value(
                state.norm_speed1_slow,
                b.base(BrushSetting::Speed1Gamma),
                m,
            )
            &&& at(BrushInput::Speed2) == speed_value(
                state.norm_speed2_slow,
                b.base(BrushSetting::Speed2Gamma),
                m,
            )
            &&& at(BrushInput::Random) == state.random_input
            &&& !state.stroke_state.nan() ==> !at(BrushInput::Stroke).nan() && at(
                BrushInput::Stroke,
            ).value() == (if state.stroke_state.value() < pow2(149) {
                state.stroke_state.value()
            } else {
                pow2(149) as int
            })
            &&& at(BrushInput::Direction) == axis(state.direction_dx, state.direction_dy, m)
            &&& at(BrushInput::Tilt) == goal.tilt
            &&& at(BrushInput::TiltDeclination) == state.declination
            &&& at(BrushInput::TiltAscension) == wrapped(state.ascension)
            &&& at(BrushInput::DirectionAngle) == heading(
                state.direction_angle_dx,
                state.direction_angle_dy,
                m,
            )
            &&& at(BrushInput::AttackAngle) == attack(
                state.ascension,
                state.direction_angle_dx,
                state.direction_angle_dy,
                m,
            )
            &&& at(BrushInput::GridmapX) == grid_place(
                run.ax,
                state.prev_settings.get(BrushSetting::GridmapScaleX),
                grid_scale(state, m),
            )
            &&& at(BrushInput::GridmapY) == grid_place(
                run.ay,
                state.prev_settings.get(BrushSetting::GridmapScaleY),
                grid_scale(state, m),
            )
            &&& at(BrushInput::Custom) == state.custom_input
            &&& at(BrushInput::TiltDeclinationX) == state.declination_x
            &&& at(BrushInput::TiltDeclinationY) == state.declination_y
            &&& at(BrushInput::Viewzoom).value() == 0
            &&& at(BrushInput::BarrelRotation).value() == 0
            &&& at(BrushInput::BrushRadius) == b.base(BrushSetting::Radius)
        }),
{
    lemma_one();
}

/// Settings follow the pressure at the dab, not that of the event: a setting
/// whose curves are all over the pressure has the value that it has at any
/// inputs with the pressure after the step, times its gain.
pub proof fn law_settings_follow_the_pressure_at_the_dab<S: DabSurface>(
    b: BrushView,
    c: Scene<S::Shown>,
    goal: Goal,
    m: Answers,
    s: BrushSetting,
    values: Seq<Single>,
)
    requires
        b.settings.len() == NUM_SETTINGS,
        forall|i: int|
            0 <= i < b.settings[s.index_spec() as int].inputs.len() ==> (
            #[trigger] b.settings[s.index_spec() as int].inputs[i]).0 == BrushInput::Pressure,
        values[BrushInput::Pressure.index_spec() as int] == after_step::<S>(
            b,
            c,
            goal,
            m,
        ).run.pressure.times(goal.pressure_gain),
    ensures
        after_step::<S>(b, c, goal, m).state.prev_settings.get(s) == evaluated(
            b.settings[s.index_spec() as int],
            values,
        ),
{
    lemma_dab_keeps_course::<S>(b, c, goal, m);
    let step = next_step(c.run, goal);
    let r = moved(c.run, goal, step);
    let e = entered(c.state, goal, r.pressure, step.frac);
    let inputs = step_inputs(b, e, r, goal, m);
    let view = b.settings[s.index_spec() as int];
    crate::setting::law_all_is_complete(s);
    lemma_settings_with(|i: int| evaluated(b.settings[i], inputs), s.index_spec() as int);
    lemma_same_at(view, inputs, values, view.inputs.len());
}

/// Evaluation over one input depends on that input alone.
proof fn lemma_same_at(s: SettingView, v: Seq<Single>, w: Seq<Single>, n: nat)
    requires
        n <= s.inputs.len(),
        forall|i: int|
            0 <= i < s.inputs.len() ==> (#[trigger] s.inputs[i]).0 == BrushInput::Pressure,
        v[BrushInput::Pressure.index_spec() as int] == w[BrushInput::Pressure.index_spec() as int],
    ensures
        added(s.base, s.inputs, v, n) == added(s.base, s.inputs, w, n),
    decreases n,
{
    if n > 0 {
        lemma_same_at(s, v, w, (n - 1) as nat);
        assert(s.inputs[n - 1].0 == BrushInput::Pressure);
    }
}

} // verus!
