//! One step of the simulation: how far it goes, what the inputs are on the
//! way, and how the memory of the brush follows.
use crate::angles::{
    attack, attack_angle, axis, direction_angle, direction_input, folded, heading, mod_arith_c,
    shortest_turn, smallest_angular_diff, speed_input, speed_value, wrap, wrapped, DEGREES_180,
};
use crate::brush::{Brush, BrushView};
use crate::dab::{approach, approached, HAIR};
use crate::double::Double;
use crate::elementary::{Answers, Elementary, Narrow, Wide};
use crate::setting::BrushSetting;
use crate::single::{Single, HALF, ONE};
use crate::smudge::{exp_radius, radius_of};
use crate::state::BrushState;
use crate::values::{InputValues, SettingValues};
use vstd::prelude::*;

verus! {

/// Where an event leads to, and what stays the same on the way.
#[derive(Clone, Copy, Debug)]
pub struct Goal {
    pub x: Single,
    pub y: Single,
    pub pressure: Single,
    pub xtilt: Single,
    pub ytilt: Single,
    /// How far the pen leans, from 0 to 1.
    pub tilt: Single,
    pub declination: Single,
    pub ascension: Single,
    pub pressure_gain: Single,
    pub base_radius: Single,
    pub stroke_threshold: Single,
}

/// How far the simulation of an event has come.
#[derive(Clone, Copy, Debug)]
pub struct Run {
    pub x: Single,
    pub y: Single,
    /// The centre of the dabs.
    pub ax: Single,
    pub ay: Single,
    pub pressure: Single,
    pub dtime_left: Double,
    /// The part of a dab that was due before.
    pub dabs_moved: Single,
    /// The dabs that are due until the goal.
    pub dabs_todo: Single,
    pub painted: bool,
}

/// One step towards the goal.
#[derive(Clone, Copy, Debug)]
pub struct Step {
    /// Whether a full dab is due.
    pub drawing: bool,
    /// The length of the step in dabs.
    pub ddab: Single,
    /// The part of the way that is left which the step goes.
    pub frac: Single,
    pub dx: Single,
    pub dy: Single,
    pub dtime: Single,
    /// The time of the step, never zero.
    pub time: Single,
}

/// 0.001.
pub const THOUSANDTH: u32 = 0x3a83_126f;

/// Whether a full dab is due.
pub open spec fn due(run: Run) -> bool {
    (Single { bits: ONE }).le(run.dabs_moved.plus(run.dabs_todo))
}

/// The next step: to the next dab, or to the goal if that is nearer.
pub open spec fn next_step(run: Run, goal: Goal) -> Step {
    let zero = Single { bits: 0 };
    let one = Single { bits: ONE };
    let ddab = if !due(run) {
        run.dabs_todo
    } else if zero.lt(run.dabs_moved) {
        one.minus(run.dabs_moved)
    } else {
        one
    };
    let frac = if due(run) {
        ddab.over(run.dabs_todo)
    } else {
        one
    };
    let dtime = Double::widen(frac).times(run.dtime_left).narrow();
    Step {
        drawing: due(run),
        ddab,
        frac,
        dx: frac.times(goal.x.minus(run.x)),
        dy: frac.times(goal.y.minus(run.y)),
        dtime,
        time: if dtime.le(zero) {
            Single { bits: THOUSANDTH }
        } else {
            dtime
        },
    }
}

pub fn plan_step(run: &Run, goal: &Goal) -> (r: Step)
    ensures
        r == next_step(*run, *goal),
{
    let zero = Single { bits: 0 };
    let one = Single { bits: ONE };
    let drawing: bool = one.le(run.dabs_moved.plus(run.dabs_todo));
    let (ddab, frac): (Single, Single) = if drawing {
        let ddab = if zero.lt(run.dabs_moved) {
            one.minus(run.dabs_moved)
        } else {
            one
        };
        (ddab, ddab.over(run.dabs_todo))
    } else {
        (run.dabs_todo, one)
    };
    let dtime = Double::from_single(frac).times(run.dtime_left).narrow();
    Step {
        drawing,
        ddab,
        frac,
        dx: frac.times(goal.x.minus(run.x)),
        dy: frac.times(goal.y.minus(run.y)),
        dtime,
        time: if dtime.le(zero) {
            Single { bits: THOUSANDTH }
        } else {
            dtime
        },
    }
}

/// The cursor and the pressure after a step; a dab that was due in part is
/// now drawn.
pub open spec fn moved(run: Run, goal: Goal, step: Step) -> Run {
    let zero = Single { bits: 0 };
    Run {
        x: run.x.plus(step.dx),
        y: run.y.plus(step.dy),
        pressure: run.pressure.plus(step.frac.times(goal.pressure.minus(run.pressure))).max(zero),
        dabs_moved: if step.drawing {
            zero
        } else {
            run.dabs_moved
        },
        ..run
    }
}

pub fn advance_run(run: &mut Run, goal: &Goal, step: &Step)
    ensures
        *final(run) == moved(*old(run), *goal, *step),
{
    let zero = Single { bits: 0 };
    if step.drawing {
        run.dabs_moved = zero;
    }
    run.x = run.x.plus(step.dx);
    run.y = run.y.plus(step.dy);
    run.pressure =
    run.pressure.plus(step.frac.times(goal.pressure.minus(run.pressure))).max(zero);
}

/// 0.9.
pub const RELEASE: u32 = 0x3f66_6666;

/// The stroke begins when the pressure rises over the threshold, and ends
/// when it falls below nine tenths of it.
pub open spec fn gated(state: BrushState, pressure: Single, threshold: Single) -> BrushState {
    let hair = Single { bits: HAIR };
    if !state.stroke_started && threshold.plus(hair).lt(pressure) {
        BrushState { stroke_started: true, stroke_state: Single { bits: 0 }, ..state }
    } else if state.stroke_started && pressure.le(
        threshold.times(Single { bits: RELEASE }).plus(hair),
    ) {
        BrushState { stroke_started: false, ..state }
    } else {
        state
    }
}

/// The dab densities of the last evaluation.
pub open spec fn with_densities(state: BrushState) -> BrushState {
    BrushState {
        dabs_per_actual_radius: state.prev_settings.get(BrushSetting::DabsPerActualRadius),
        dabs_per_basic_radius: state.prev_settings.get(BrushSetting::DabsPerBasicRadius),
        dabs_per_second: state.prev_settings.get(BrushSetting::DabsPerSecond),
        ..state
    }
}

/// 60: the tilt of one in degrees.
pub const TILT_DEGREES: u32 = 0x4270_0000;

/// The smoothed tilt after a step.
pub open spec fn tilted(state: BrushState, goal: Goal, frac: Single) -> BrushState {
    let full = Single { bits: TILT_DEGREES };
    BrushState {
        ascension: state.ascension.plus(
            frac.times(shortest_turn(state.ascension, goal.ascension)),
        ),
        declination: state.declination.plus(
            frac.times(goal.declination.minus(state.declination)),
        ),
        declination_x: state.declination_x.plus(
            frac.times(goal.xtilt.times(full).minus(state.declination_x)),
        ),
        declination_y: state.declination_y.plus(
            frac.times(goal.ytilt.times(full).minus(state.declination_y)),
        ),
        ..state
    }
}

/// The memory as the settings of a step find it.
pub open spec fn entered(
    state: BrushState,
    goal: Goal,
    pressure: Single,
    frac: Single,
) -> BrushState {
    tilted(gated(with_densities(state), pressure, goal.stroke_threshold), goal, frac)
}

pub fn enter_step(state: &mut BrushState, goal: &Goal, pressure: Single, frac: Single)
    ensures
        *final(state) == entered(*old(state), *goal, pressure, frac),
{
    let hair = Single { bits: HAIR };
    let threshold = goal.stroke_threshold;
    state.dabs_per_actual_radius = state.prev_settings.get(BrushSetting::DabsPerActualRadius);
    state.dabs_per_basic_radius = state.prev_settings.get(BrushSetting::DabsPerBasicRadius);
    state.dabs_per_second = state.prev_settings.get(BrushSetting::DabsPerSecond);
    if !state.stroke_started && threshold.plus(hair).lt(pressure) {
        state.stroke_started = true;
        state.stroke_state = Single { bits: 0 };
    } else if state.stroke_started && pressure.le(
        threshold.times(Single { bits: RELEASE }).plus(hair),
    ) {
        state.stroke_started = false;
    }
    let full = Single { bits: TILT_DEGREES };
    state.ascension =
    state.ascension.plus(frac.times(smallest_angular_diff(state.ascension, goal.ascension)));
    state.declination =
    state.declination.plus(frac.times(goal.declination.minus(state.declination)));
    state.declination_x =
    state.declination_x.plus(frac.times(goal.xtilt.times(full).minus(state.declination_x)));
    state.declination_y =
    state.declination_y.plus(frac.times(goal.ytilt.times(full).minus(state.declination_y)));
}

/// 256.
pub const GRID: u32 = 0x4380_0000;

/// The place of a coordinate in the grid of the brush.
pub open spec fn grid_place(c: Single, axis_scale: Single, scale: Single) -> Single {
    let grid = Single { bits: GRID };
    let zero = Single { bits: 0 };
    let size = scale.times(grid);
    let g = c.times(axis_scale).abs().rem_euclid(size).over(size).times(grid);
    let g = if c.lt(zero) {
        grid.minus(g)
    } else {
        g
    };
    g.clamp(zero, grid)
}

fn place_in_grid(c: Single, axis_scale: Single, scale: Single) -> (r: Single)
    ensures
        r == grid_place(c, axis_scale, scale),
{
    let grid = Single { bits: GRID };
    let zero = Single { bits: 0 };
    let size = scale.times(grid);
    let mut g = c.times(axis_scale).abs().rem_euclid(size).over(size).times(grid);
    if c.lt(zero) {
        g = grid.minus(g);
    }
    g.clamp(zero, grid)
}

/// The scale of the grid, by the last settings.
pub open spec fn grid_scale(state: BrushState, m: Answers) -> Single {
    m.exp(state.prev_settings.get(BrushSetting::GridmapScale)).max(Single { bits: THOUSANDTH })
}

/// The inputs of a step, in index order.
pub open spec fn step_inputs(
    b: BrushView,
    state: BrushState,
    run: Run,
    goal: Goal,
    m: Answers,
) -> Seq<Single> {
    seq![
        run.pressure.times(goal.pressure_gain),
        speed_value(state.norm_speed1_slow, b.base(BrushSetting::Speed1Gamma), m),
        speed_value(state.norm_speed2_slow, b.base(BrushSetting::Speed2Gamma), m),
        state.random_input,
        state.stroke_state.min(Single { bits: ONE }),
        axis(state.direction_dx, state.direction_dy, m),
        goal.tilt,
        state.declination,
        wrapped(state.ascension),
        heading(state.direction_angle_dx, state.direction_angle_dy, m),
        attack(state.ascension, state.direction_angle_dx, state.direction_angle_dy, m),
        grid_place(
            run.ax,
            state.prev_settings.get(BrushSetting::GridmapScaleX),
            grid_scale(state, m),
        ),
        grid_place(
            run.ay,
            state.prev_settings.get(BrushSetting::GridmapScaleY),
            grid_scale(state, m),
        ),
        state.custom_input,
        state.declination_x,
        state.declination_y,
        Single { bits: 0 },
        Single { bits: 0 },
        b.base(BrushSetting::Radius),
    ]
}

pub fn inputs_of_step<N: Fn(Narrow) -> Single, W: Fn(Wide) -> Double>(
    brush: &Brush,
    state: &BrushState,
    run: &Run,
    goal: &Goal,
    math: &Elementary<N, W>,
) -> (r: InputValues)
    requires
        brush.wf(),
        math.wf(),
    ensures
        r@ == step_inputs(brush@, *state, *run, *goal, math.answers()),
{
    let scale = math.exp(state.prev_settings.get(BrushSetting::GridmapScale)).max(
        Single { bits: THOUSANDTH },
    );
    let values: [Single; 19] = [
        run.pressure.times(goal.pressure_gain),
        speed_input(state.norm_speed1_slow, brush.base(BrushSetting::Speed1Gamma), math),
        speed_input(state.norm_speed2_slow, brush.base(BrushSetting::Speed2Gamma), math),
        state.random_input,
        state.stroke_state.min(Single { bits: ONE }),
        direction_input(state.direction_dx, state.direction_dy, math),
        goal.tilt,
        state.declination,
        wrap(state.ascension),
        direction_angle(state.direction_angle_dx, state.direction_angle_dy, math),
        attack_angle(
            state.ascension,
            state.direction_angle_dx,
            state.direction_angle_dy,
            math,
        ),
        place_in_grid(run.ax, state.prev_settings.get(BrushSetting::GridmapScaleX), scale),
        place_in_grid(run.ay, state.prev_settings.get(BrushSetting::GridmapScaleY), scale),
        state.custom_input,
        state.declination_x,
        state.declination_y,
        Single { bits: 0 },
        Single { bits: 0 },
        brush.base(BrushSetting::Radius),
    ];
    let r = InputValues { values };
    assert(r@ =~= step_inputs(brush@, *state, *run, *goal, math.answers()));
    r
}

/// The part of the way that a smoothed value goes in the time `t` when its
/// time constant is `slow`.
pub open spec fn share_in(t: Single, slow: Single, m: Answers) -> Single {
    let one = Single { bits: ONE };
    if (Single { bits: THOUSANDTH }).lt(slow) {
        one.minus(m.exp(t.negate().over(slow)))
    } else {
        one
    }
}

pub fn decay_share<N: Fn(Narrow) -> Single, W: Fn(Wide) -> Double>(
    t: Single,
    slow: Single,
    math: &Elementary<N, W>,
) -> (r: Single)
    requires
        math.wf(),
    ensures
        r == share_in(t, slow, math.answers()),
{
    let one = Single { bits: ONE };
    if (Single { bits: THOUSANDTH }).lt(slow) {
        one.minus(math.exp(t.negate().over(slow)))
    } else {
        one
    }
}

/// A setting that cannot be negative.
pub open spec fn slowness(sv: SettingValues, s: BrushSetting) -> Single {
    sv.get(s).max(Single { bits: 0 })
}

/// 0.01 and 0.002.
pub const HUNDREDTH: u32 = 0x3c23_d70a;

pub const SHORTEST: u32 = 0x3b03_126f;

/// The memory with its smoothed speeds and velocity after a step.
pub open spec fn sped(state: BrushState, sv: SettingValues, step: Step, m: Answers) -> BrushState {
    let one = Single { bits: ONE };
    let vx = step.dx.over(step.time);
    let vy = step.dy.over(step.time);
    let speed = m.hypot(vx, vy);
    let lag = m.exp(
        sv.get(BrushSetting::OffsetBySpeedSlowness).times(Single { bits: HUNDREDTH }),
    ).minus(one).max(Single { bits: SHORTEST });
    let share = one.minus(m.exp(step.time.negate().over(lag)));
    BrushState {
        norm_speed1_slow: approached(
            state.norm_speed1_slow,
            speed,
            share_in(step.time, slowness(sv, BrushSetting::Speed1Slowness), m),
        ),
        norm_speed2_slow: approached(
            state.norm_speed2_slow,
            speed,
            share_in(step.time, slowness(sv, BrushSetting::Speed2Slowness), m),
        ),
        norm_dx_slow: approached(state.norm_dx_slow, vx, share),
        norm_dy_slow: approached(state.norm_dy_slow, vy, share),
        ..state
    }
}

fn speed_up<N: Fn(Narrow) -> Single, W: Fn(Wide) -> Double>(
    state: &mut BrushState,
    sv: &SettingValues,
    step: &Step,
    math: &Elementary<N, W>,
)
    requires
        math.wf(),
    ensures
        *final(state) == sped(*old(state), *sv, *step, math.answers()),
{
    let one = Single { bits: ONE };
    let zero = Single { bits: 0 };
    let vx = step.dx.over(step.time);
    let vy = step.dy.over(step.time);
    let speed = math.hypot(vx, vy);
    let share1 = decay_share(step.time, sv.get(BrushSetting::Speed1Slowness).max(zero), math);
    let share2 = decay_share(step.time, sv.get(BrushSetting::Speed2Slowness).max(zero), math);
    state.norm_speed1_slow = approach(state.norm_speed1_slow, speed, share1);
    state.norm_speed2_slow = approach(state.norm_speed2_slow, speed, share2);
    let lag = math.exp(
        sv.get(BrushSetting::OffsetBySpeedSlowness).times(Single { bits: HUNDREDTH }),
    ).minus(one).max(Single { bits: SHORTEST });
    let share = one.minus(math.exp(step.time.negate().over(lag)));
    state.norm_dx_slow = approach(state.norm_dx_slow, vx, share);
    state.norm_dy_slow = approach(state.norm_dy_slow, vy, share);
}

/// The square of the distance between two vectors.
pub open spec fn apart(x: Single, y: Single, dx: Single, dy: Single) -> Single {
    x.minus(dx).times(x.minus(dx)).plus(y.minus(dy).times(y.minus(dy)))
}

/// Whether a step is nearer to the reverse of the direction so far.
pub open spec fn reverses(state: BrushState, step: Step) -> bool {
    let x = state.direction_dx;
    let y = state.direction_dy;
    let back = x.plus(step.dx).times(x.plus(step.dx)).plus(
        y.plus(step.dy).times(y.plus(step.dy)),
    );
    back.lt(apart(x, y, step.dx, step.dy))
}

/// The memory with its smoothed directions after a step.
pub open spec fn directed(
    state: BrushState,
    sv: SettingValues,
    step: Step,
    m: Answers,
) -> BrushState {
    let lag = m.exp(
        slowness(sv, BrushSetting::DirectionFilter).times(Single { bits: HALF }),
    ).minus(Single { bits: ONE });
    let share = share_in(m.hypot(step.dx, step.dy), lag, m);
    let (dx, dy) = if reverses(state, step) {
        (step.dx.negate(), step.dy.negate())
    } else {
        (step.dx, step.dy)
    };
    BrushState {
        direction_angle_dx: approached(state.direction_angle_dx, step.dx, share),
        direction_angle_dy: approached(state.direction_angle_dy, step.dy, share),
        direction_dx: approached(state.direction_dx, dx, share),
        direction_dy: approached(state.direction_dy, dy, share),
        ..state
    }
}

fn direct<N: Fn(Narrow) -> Single, W: Fn(Wide) -> Double>(
    state: &mut BrushState,
    sv: &SettingValues,
    step: &Step,
    math: &Elementary<N, W>,
)
    requires
        math.wf(),
    ensures
        *final(state) == directed(*old(state), *sv, *step, math.answers()),
{
    let lag = math.exp(
        sv.get(BrushSetting::DirectionFilter).max(Single { bits: 0 }).times(
            Single { bits: HALF },
        ),
    ).minus(Single { bits: ONE });
    let share = decay_share(math.hypot(step.dx, step.dy), lag, math);
    state.direction_angle_dx = approach(state.direction_angle_dx, step.dx, share);
    state.direction_angle_dy = approach(state.direction_angle_dy, step.dy, share);
    let x = state.direction_dx;
    let y = state.direction_dy;
    let ahead = x.minus(step.dx).times(x.minus(step.dx)).plus(
        y.minus(step.dy).times(y.minus(step.dy)),
    );
    let back = x.plus(step.dx).times(x.plus(step.dx)).plus(
        y.plus(step.dy).times(y.plus(step.dy)),
    );
    let (dx, dy): (Single, Single) = if back.lt(ahead) {
        (step.dx.negate(), step.dy.negate())
    } else {
        (step.dx, step.dy)
    };
    state.direction_dx = approach(x, dx, share);
    state.direction_dy = approach(y, dy, share);
}

/// 10.9: from this period on a stroke that has come to its end stays there.
pub const HOLD: u32 = 0x412e_6666;

/// How far the stroke has come after a step: around again after `1 +
/// stroke_holdtime`, or held at the end.
pub open spec fn stroked(
    state: BrushState,
    sv: SettingValues,
    step: Step,
    base_radius: Single,
    m: Answers,
) -> Single {
    let zero = Single { bits: 0 };
    let one = Single { bits: ONE };
    let dist = m.hypot(
        step.dx.over(step.time).over(base_radius),
        step.dy.over(step.time).over(base_radius),
    ).times(step.time);
    let rate = m.exp(sv.get(BrushSetting::StrokeDurationLogarithmic).negate());
    let period = one.plus(slowness(sv, BrushSetting::StrokeHoldtime));
    let stroke = state.stroke_state.plus(dist.times(rate)).max(zero);
    if period.le(stroke) {
        if (Single { bits: HOLD }).lt(period) {
            one
        } else {
            stroke.rem(period)
        }
    } else {
        stroke
    }
}

fn advance_stroke<N: Fn(Narrow) -> Single, W: Fn(Wide) -> Double>(
    state: &BrushState,
    sv: &SettingValues,
    step: &Step,
    base_radius: Single,
    math: &Elementary<N, W>,
) -> (r: Single)
    requires
        math.wf(),
    ensures
        r == stroked(*state, *sv, *step, base_radius, math.answers()),
{
    let zero = Single { bits: 0 };
    let one = Single { bits: ONE };
    let dist = math.hypot(
        step.dx.over(step.time).over(base_radius),
        step.dy.over(step.time).over(base_radius),
    ).times(step.time);
    let rate = math.exp(sv.get(BrushSetting::StrokeDurationLogarithmic).negate());
    let period = one.plus(sv.get(BrushSetting::StrokeHoldtime).max(zero));
    let stroke = state.stroke_state.plus(dist.times(rate)).max(zero);
    if period.le(stroke) {
        if (Single { bits: HOLD }).lt(period) {
            one
        } else {
            stroke.rem(period)
        }
    } else {
        stroke
    }
}

/// 0.1.
pub const TENTH: u32 = 0x3dcc_cccd;

/// The memory after a step with the given settings.
pub open spec fn followed(
    state: BrushState,
    sv: SettingValues,
    step: Step,
    base_radius: Single,
    m: Answers,
) -> BrushState {
    let s = directed(sped(state, sv, step, m), sv, step, m);
    let half_turn = Single { bits: DEGREES_180 };
    BrushState {
        actual_radius: radius_of(sv.get(BrushSetting::Radius), m),
        stroke_state: stroked(state, sv, step, base_radius, m),
        custom_input: approached(
            state.custom_input,
            sv.get(BrushSetting::CustomInput),
            share_in(Single { bits: TENTH }, slowness(sv, BrushSetting::CustomInputSlowness), m),
        ),
        actual_elliptical_ratio: sv.get(BrushSetting::EllipticalDabRatio),
        actual_elliptical_angle: folded(
            sv.get(BrushSetting::EllipticalDabAngle).plus(half_turn),
            half_turn,
        ).minus(half_turn),
        prev_settings: sv,
        ..s
    }
}

pub fn follow<N: Fn(Narrow) -> Single, W: Fn(Wide) -> Double>(
    state: &mut BrushState,
    sv: &SettingValues,
    step: &Step,
    base_radius: Single,
    math: &Elementary<N, W>,
)
    requires
        math.wf(),
    ensures
        *final(state) == followed(*old(state), *sv, *step, base_radius, math.answers()),
{
    let half_turn = Single { bits: DEGREES_180 };
    state.actual_radius = exp_radius(sv.get(BrushSetting::Radius), math);
    state.stroke_state = advance_stroke(state, sv, step, base_radius, math);
    speed_up(state, sv, step, math);
    direct(state, sv, step, math);
    let share = decay_share(
        Single { bits: TENTH },
        sv.get(BrushSetting::CustomInputSlowness).max(Single { bits: 0 }),
        math,
    );
    state.custom_input =
    approach(state.custom_input, sv.get(BrushSetting::CustomInput), share);
    state.actual_elliptical_ratio = sv.get(BrushSetting::EllipticalDabRatio);
    state.actual_elliptical_angle =
    mod_arith_c(sv.get(BrushSetting::EllipticalDabAngle).plus(half_turn), half_turn).minus(
        half_turn,
    );
    state.prev_settings = *sv;
}

/// The centre of the dabs after a step.
pub open spec fn centered(run: Run, sv: SettingValues, step: Step, m: Answers) -> Run {
    let share = share_in(step.ddab, slowness(sv, BrushSetting::SlowTrackingPerDab), m);
    Run { ax: approached(run.ax, run.x, share), ay: approached(run.ay, run.y, share), ..run }
}

pub fn center<N: Fn(Narrow) -> Single, W: Fn(Wide) -> Double>(
    run: &mut Run,
    sv: &SettingValues,
    step: &Step,
    math: &Elementary<N, W>,
)
    requires
        math.wf(),
    ensures
        *final(run) == centered(*old(run), *sv, *step, math.answers()),
{
    let share = decay_share(
        step.ddab,
        sv.get(BrushSetting::SlowTrackingPerDab).max(Single { bits: 0 }),
        math,
    );
    run.ax = approach(run.ax, run.x, share);
    run.ay = approach(run.ay, run.y, share);
}

/// The stroke gate has a dead zone: between nine tenths of the threshold and
/// the threshold a stroke stays as it is, and only its start resets it.
pub proof fn law_gate_has_a_dead_zone(state: BrushState, pressure: Single, threshold: Single)
    ensures
        !threshold.plus(Single { bits: HAIR }).lt(pressure) && !pressure.le(
            threshold.times(Single { bits: RELEASE }).plus(Single { bits: HAIR }),
        ) ==> gated(state, pressure, threshold) == state,
        gated(state, pressure, threshold).stroke_state != state.stroke_state ==> !state.stroke_started
            && gated(state, pressure, threshold).stroke_started,
{
}

} // verus!
