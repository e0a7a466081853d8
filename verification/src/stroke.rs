//! The stroke engine: from pointer events to dabs.
//!
//! An event first passes the skip window of `tracking_noise`.  The first
//! event of a stroke only seeds the memory of the brush.  Every other one is
//! smoothed by `slow_tracking` and then simulated step by step: each step
//! goes on to the next dab that is due, evaluates all settings there, lets
//! the memory follow, and draws the dab.  The last step goes to the goal and
//! draws nothing.
use crate::angles::{radians, radians_c, turn_of, turned};
use crate::brush::{Brush, BrushView};
use crate::color::{to_unit, unit};
use crate::dab::{
    approach, approached, between, build_dab, colored, dab_at, dab_color,
    law_smaller_part_stays_behind,
};
use crate::dab_surface::{Canvas, DabSurface};
use crate::double::Double;
use crate::draw::{canvas_pixel, differs};
use crate::dynamics::{
    advance_run, center, centered, decay_share, due, enter_step, entered, follow, followed,
    inputs_of_step, moved, next_step, plan_step, share_in, step_inputs, Goal, Run, Step, TENTH,
    THOUSANDTH, TILT_DEGREES,
};
use crate::elementary::{Answers, Elementary, Narrow, Wide};
use crate::evaluator::{evaluate, evaluated};
use crate::offsets::{directional_offsets, offsets};
use crate::rand::SampleRng;
use crate::range::{
    in_unit, lemma_negate, lemma_no_units, lemma_one, lemma_over_order, lemma_plus_order,
    lemma_plus_value, lemma_rest_in_unit, lemma_share_order,
};
use crate::rng::BrushRng;
use crate::setting::BrushSetting;
use crate::single::{law_times_commutes, lemma_infinity_units, Single, HALF, ONE};
use crate::smudge::{exp_radius, radius_of, smudge_step, update_smudge_color};
use crate::state::{BrushState, MINUS_ONE};
use crate::surface::{Dab, TiledSurface, Turn};
use crate::values::{lemma_settings_are_values, settings_with, SettingValues};
use vstd::prelude::*;

verus! {

/// The settings of a brush at the given inputs.
pub open spec fn settings_at(b: BrushView, inputs: Seq<Single>) -> SettingValues {
    settings_with(|i: int| evaluated(b.settings[i], inputs))
}

/// How far two points are apart in radii of a dab of the last shape.
pub open spec fn reach(state: BrushState, dx: Single, dy: Single, m: Answers) -> Single {
    let ratio = state.actual_elliptical_ratio;
    if (Single { bits: ONE }).lt(ratio) {
        let angle = radians(state.actual_elliptical_angle);
        let cs = m.cos(angle);
        let sn = m.sin(angle);
        let across = dy.times(cs).minus(dx.times(sn)).times(ratio);
        let along = dy.times(sn).plus(dx.times(cs));
        m.sqrt(across.times(across).plus(along.times(along)))
    } else {
        m.hypot(dx, dy)
    }
}

/// The last density, or the base value where there is none yet.
pub open spec fn density(last: Single, base: Single) -> Single {
    if !last.same(Single { bits: 0 }) && !last.nan() {
        last
    } else {
        base
    }
}

/// The last radius, or the base radius after a reset.
pub open spec fn last_radius(state: BrushState, base_radius: Single) -> Single {
    if state.actual_radius.same(Single { bits: 0 }) {
        base_radius
    } else {
        state.actual_radius
    }
}

/// The dabs that are due on a way of `(dx, dy)` in the time `dt`.
pub open spec fn dabs_due(
    b: BrushView,
    state: BrushState,
    dx: Single,
    dy: Single,
    dt: Single,
    m: Answers,
) -> Single {
    let base_radius = radius_of(b.base(BrushSetting::Radius), m);
    let dist = reach(state, dx, dy, m);
    let by_actual = density(
        state.dabs_per_actual_radius,
        b.base(BrushSetting::DabsPerActualRadius),
    );
    let by_basic = density(
        state.dabs_per_basic_radius,
        b.base(BrushSetting::DabsPerBasicRadius),
    );
    let by_time = if state.dabs_per_second.nan() {
        b.base(BrushSetting::DabsPerSecond)
    } else {
        state.dabs_per_second
    };
    dist.over(last_radius(state, base_radius)).times(by_actual).plus(
        dist.over(base_radius).times(by_basic),
    ).plus(dt.times(by_time))
}

/// Counts the dabs that are due until the goal; sets the radius after a
/// reset.
pub fn count_dabs_to<N: Fn(Narrow) -> Single, W: Fn(Wide) -> Double>(
    brush: &Brush,
    state: &mut BrushState,
    x: Single,
    y: Single,
    goal_x: Single,
    goal_y: Single,
    dt: Single,
    math: &Elementary<N, W>,
) -> (r: Single)
    requires
        brush.wf(),
        math.wf(),
    ensures
        r == dabs_due(
            brush@,
            *old(state),
            goal_x.minus(x),
            goal_y.minus(y),
            dt,
            math.answers(),
        ),
        *final(state) == (BrushState {
            actual_radius: last_radius(
                *old(state),
                radius_of(brush@.base(BrushSetting::Radius), math.answers()),
            ),
            ..*old(state)
        }),
{
    let zero = Single { bits: 0 };
    let base_radius = exp_radius(brush.base(BrushSetting::Radius), math);
    if state.actual_radius.same(zero) {
        state.actual_radius = base_radius;
    }
    let dx = goal_x.minus(x);
    let dy = goal_y.minus(y);
    let ratio = state.actual_elliptical_ratio;
    let dist = if (Single { bits: ONE }).lt(ratio) {
        let angle = radians_c(state.actual_elliptical_angle);
        let cs = math.cos(angle);
        let sn = math.sin(angle);
        let across = dy.times(cs).minus(dx.times(sn)).times(ratio);
        let along = dy.times(sn).plus(dx.times(cs));
        math.sqrt(across.times(across).plus(along.times(along)))
    } else {
        math.hypot(dx, dy)
    };
    let mut by_actual = state.dabs_per_actual_radius;
    if by_actual.same(zero) || by_actual.is_nan() {
        by_actual = brush.base(BrushSetting::DabsPerActualRadius);
    }
    let mut by_basic = state.dabs_per_basic_radius;
    if by_basic.same(zero) || by_basic.is_nan() {
        by_basic = brush.base(BrushSetting::DabsPerBasicRadius);
    }
    let mut by_time = state.dabs_per_second;
    if by_time.is_nan() {
        by_time = brush.base(BrushSetting::DabsPerSecond);
    }
    dist.over(state.actual_radius).times(by_actual).plus(
        dist.over(base_radius).times(by_basic),
    ).plus(dt.times(by_time))
}

/// Where a dab goes, how large it is, and a factor on its opacity.
#[derive(Clone, Copy, Debug)]
pub struct Place {
    pub x: Single,
    pub y: Single,
    pub radius: Single,
    pub scale: Single,
}

/// The memory after a dab is scattered, with two normal numbers drawn, and
/// where the dab is.
pub open spec fn scattered(
    state: BrushState,
    sv: SettingValues,
    p: Place,
    base_radius: Single,
) -> (BrushState, Place) {
    let zero = Single { bits: 0 };
    let amount = sv.get(BrushSetting::OffsetByRandom);
    if amount.same(zero) {
        (state, p)
    } else {
        let far = amount.max(zero);
        let rng = state.rng;
        (
            BrushState { rng: rng.drawn_gauss().drawn_gauss(), ..state },
            Place {
                x: p.x.plus(rng.gauss().times(far).times(base_radius)),
                y: p.y.plus(rng.drawn_gauss().gauss().times(far).times(base_radius)),
                ..p
            },
        )
    }
}

/// The memory after the radius of a dab is changed by chance, with a normal
/// number drawn, and the dab: a larger one is fainter.
pub open spec fn resized(
    state: BrushState,
    sv: SettingValues,
    p: Place,
    m: Answers,
) -> (BrushState, Place) {
    let zero = Single { bits: 0 };
    let amount = sv.get(BrushSetting::RadiusByRandom);
    if amount.same(zero) {
        (state, p)
    } else {
        let rng = state.rng;
        let radius = radius_of(
            sv.get(BrushSetting::Radius).plus(rng.gauss().times(amount.max(zero))),
            m,
        );
        let ratio = p.radius.over(radius);
        let fainter = ratio.times(ratio);
        (
            BrushState { rng: rng.drawn_gauss(), ..state },
            Place {
                radius,
                scale: if fainter.le(Single { bits: ONE }) {
                    fainter
                } else {
                    p.scale
                },
                ..p
            },
        )
    }
}

/// A dab moved along with the stroke.
pub open spec fn dragged(state: BrushState, sv: SettingValues, p: Place) -> Place {
    let amount = sv.get(BrushSetting::OffsetBySpeed);
    let tenth = Single { bits: TENTH };
    if amount.same(Single { bits: 0 }) {
        p
    } else {
        Place {
            x: p.x.plus(state.norm_dx_slow.times(amount).times(tenth)),
            y: p.y.plus(state.norm_dy_slow.times(amount).times(tenth)),
            ..p
        }
    }
}

/// The memory after a dab is placed, and its place.
pub open spec fn placed(
    state: BrushState,
    sv: SettingValues,
    run: Run,
    base_radius: Single,
    m: Answers,
) -> (BrushState, Place) {
    let s = BrushState { flip: state.flip.negate(), ..state };
    let d = offsets(
        sv,
        base_radius,
        s.flip,
        s.direction_angle_dx,
        s.direction_angle_dy,
        s.ascension,
        m,
    );
    let p = Place {
        x: run.ax.plus(d.0),
        y: run.ay.plus(d.1),
        radius: s.actual_radius,
        scale: Single { bits: ONE },
    };
    let (s, p) = scattered(s, sv, p, base_radius);
    let (s, p) = resized(s, sv, p, m);
    (s, dragged(s, sv, p))
}

/// Places a dab.
pub fn place_dab<N: Fn(Narrow) -> Single, W: Fn(Wide) -> Double>(
    state: &mut BrushState,
    sv: &SettingValues,
    run: &Run,
    base_radius: Single,
    math: &Elementary<N, W>,
) -> (p: Place)
    requires
        old(state).wf(),
        math.wf(),
    ensures
        final(state).wf(),
        (*final(state), p) == placed(*old(state), *sv, *run, base_radius, math.answers()),
{
    let zero = Single { bits: 0 };
    let one = Single { bits: ONE };
    state.flip = state.flip.negate();
    let d: (Single, Single) = directional_offsets(
        sv,
        base_radius,
        state.flip,
        state.direction_angle_dx,
        state.direction_angle_dy,
        state.ascension,
        math,
    );
    let mut x = run.ax.plus(d.0);
    let mut y = run.ay.plus(d.1);
    let far = sv.get(BrushSetting::OffsetByRandom);
    if !far.same(zero) {
        let far = far.max(zero);
        x = x.plus(state.rng.next_gauss().times(far).times(base_radius));
        y = y.plus(state.rng.next_gauss().times(far).times(base_radius));
    }
    let mut radius = state.actual_radius;
    let mut scale = one;
    let amount = sv.get(BrushSetting::RadiusByRandom);
    if !amount.same(zero) {
        let noise = state.rng.next_gauss().times(amount.max(zero));
        radius = exp_radius(sv.get(BrushSetting::Radius).plus(noise), math);
        let ratio = state.actual_radius.over(radius);
        let fainter = ratio.times(ratio);
        if fainter.le(one) {
            scale = fainter;
        }
    }
    let along = sv.get(BrushSetting::OffsetBySpeed);
    if !along.same(zero) {
        let tenth = Single { bits: TENTH };
        x = x.plus(state.norm_dx_slow.times(along).times(tenth));
        y = y.plus(state.norm_dy_slow.times(along).times(tenth));
    }
    Place { x, y, radius, scale }
}

/// A brush on its way over a surface.
pub struct Scene<T> {
    pub state: BrushState,
    pub run: Run,
    pub shown: T,
    pub rng: SampleRng,
}

/// The memory and the run after the settings of a step are evaluated and
/// followed.
pub open spec fn stepped(
    b: BrushView,
    state: BrushState,
    run: Run,
    goal: Goal,
    m: Answers,
) -> (BrushState, Run) {
    let step = next_step(run, goal);
    let r = moved(run, goal, step);
    let s = entered(state, goal, r.pressure, step.frac);
    let sv = settings_at(b, step_inputs(b, s, r, goal, m));
    (followed(s, sv, step, goal.base_radius, m), centered(r, sv, step, m))
}

/// The scene after the dab of a step.
pub open spec fn dabbed<S: DabSurface>(
    b: BrushView,
    c: Scene<S::Shown>,
    goal: Goal,
    m: Answers,
) -> Scene<S::Shown> {
    let sv = c.state.prev_settings;
    let (s, p) = placed(c.state, sv, c.run, goal.base_radius, m);
    let (s, dropped, rng) = smudge_step::<S>(b, sv, s, c.shown, c.rng, p.x, p.y, p.radius, m);
    let smudge = unit(sv.get(BrushSetting::Smudge));
    let dab = dab_at(b, sv, s, p.x, p.y, p.radius, smudge, p.scale, m);
    let s = colored(s, dab_color(b, sv, s, unit(smudge)));
    let turn = turned(dab.angle, m);
    Scene {
        state: BrushState {
            last_dab_x: dab.x,
            last_dab_y: dab.y,
            random_input: s.rng.unit(),
            rng: s.rng.drawn(),
            ..s
        },
        run: Run {
            painted: c.run.painted || (!dropped && S::marked(c.shown, dab, turn)),
            ..c.run
        },
        shown: if dropped {
            c.shown
        } else {
            S::dabbed(c.shown, dab, turn)
        },
        rng,
    }
}

/// The scene after the dabs that are still due are counted.
pub open spec fn counted<T>(
    b: BrushView,
    c: Scene<T>,
    goal: Goal,
    dtime_left: Double,
    m: Answers,
) -> Scene<T> {
    Scene {
        state: BrushState {
            actual_radius: last_radius(c.state, radius_of(b.base(BrushSetting::Radius), m)),
            ..c.state
        },
        run: Run {
            dtime_left,
            dabs_todo: dabs_due(
                b,
                c.state,
                goal.x.minus(c.run.x),
                goal.y.minus(c.run.y),
                dtime_left.narrow(),
                m,
            ),
            ..c.run
        },
        ..c
    }
}

/// The scene after a step.
pub open spec fn after_step<S: DabSurface>(
    b: BrushView,
    c: Scene<S::Shown>,
    goal: Goal,
    m: Answers,
) -> Scene<S::Shown> {
    let step = next_step(c.run, goal);
    let (state, run) = stepped(b, c.state, c.run, goal, m);
    let d = Scene { state, run, ..c };
    if step.drawing {
        counted(
            b,
            dabbed::<S>(b, d, goal, m),
            goal,
            c.run.dtime_left.minus(Double::widen(step.dtime)),
            m,
        )
    } else {
        d
    }
}

/// The scene at the goal, if that takes no more than `limit` steps.
pub open spec fn arrived<S: DabSurface>(
    b: BrushView,
    c: Scene<S::Shown>,
    goal: Goal,
    m: Answers,
    limit: nat,
) -> Scene<S::Shown>
    decreases limit,
{
    if limit == 0 {
        c
    } else if due(c.run) {
        arrived::<S>(b, after_step::<S>(b, c, goal, m), goal, m, (limit - 1) as nat)
    } else {
        after_step::<S>(b, c, goal, m)
    }
}

/// Evaluates the settings of a step and lets the memory follow.
fn simulate<N: Fn(Narrow) -> Single, W: Fn(Wide) -> Double>(
    brush: &Brush,
    state: &mut BrushState,
    run: &mut Run,
    goal: &Goal,
    math: &Elementary<N, W>,
) -> (step: Step)
    requires
        brush.wf(),
        old(state).wf(),
        math.wf(),
    ensures
        final(state).wf(),
        step == next_step(*old(run), *goal),
        (*final(state), *final(run)) == stepped(
            brush@,
            *old(state),
            *old(run),
            *goal,
            math.answers(),
        ),
{
    let step: Step = plan_step(run, goal);
    advance_run(run, goal, &step);
    enter_step(state, goal, run.pressure, step.frac);
    let inputs = inputs_of_step(brush, state, run, goal, math);
    let sv: SettingValues = evaluate(brush, &inputs);
    proof {
        lemma_settings_are_values(sv, |i: int| evaluated(brush@.settings[i], inputs@));
    }
    follow(state, &sv, &step, goal.base_radius, math);
    center(run, &sv, &step, math);
    step
}

/// Makes and draws the dab of a step.
fn draw_step<S: DabSurface, N: Fn(Narrow) -> Single, W: Fn(Wide) -> Double>(
    brush: &Brush,
    state: &mut BrushState,
    run: &mut Run,
    surface: &mut S,
    rng: &mut SampleRng,
    goal: &Goal,
    math: &Elementary<N, W>,
)
    requires
        brush.wf(),
        old(state).wf(),
        old(surface).ready(),
        old(rng).wf(),
        math.wf(),
    ensures
        final(state).wf(),
        final(surface).ready(),
        final(rng).wf(),
        (Scene {
            state: *final(state),
            run: *final(run),
            shown: final(surface).shown(),
            rng: *final(rng),
        }) == dabbed::<S>(
            brush@,
            Scene {
                state: *old(state),
                run: *old(run),
                shown: old(surface).shown(),
                rng: *old(rng),
            },
            *goal,
            math.answers(),
        ),
{
    let sv: SettingValues = state.prev_settings;
    let p: Place = place_dab(state, &sv, run, goal.base_radius, math);
    let dropped: bool = update_smudge_color(
        brush,
        &sv,
        state,
        surface,
        rng,
        p.x,
        p.y,
        p.radius,
        math,
    );
    let smudge = to_unit(sv.get(BrushSetting::Smudge));
    let dab: Dab = build_dab(brush, &sv, state, p.x, p.y, p.radius, smudge, p.scale, math);
    if !dropped {
        let turn = turn_of(dab.angle, math);
        if surface.draw_dab(&dab, turn) {
            run.painted = true;
        }
    }
    state.last_dab_x = dab.x;
    state.last_dab_y = dab.y;
    state.random_input = state.rng.next_unit();
}

/// Takes one step.  Returns whether there was a dab due, so that another
/// step may follow.
fn take_step<S: DabSurface, N: Fn(Narrow) -> Single, W: Fn(Wide) -> Double>(
    brush: &Brush,
    state: &mut BrushState,
    run: &mut Run,
    surface: &mut S,
    rng: &mut SampleRng,
    goal: &Goal,
    math: &Elementary<N, W>,
) -> (more: bool)
    requires
        brush.wf(),
        old(state).wf(),
        old(surface).ready(),
        old(rng).wf(),
        math.wf(),
    ensures
        final(state).wf(),
        final(surface).ready(),
        final(rng).wf(),
        more == due(*old(run)),
        (Scene {
            state: *final(state),
            run: *final(run),
            shown: final(surface).shown(),
            rng: *final(rng),
        }) == after_step::<S>(
            brush@,
            Scene {
                state: *old(state),
                run: *old(run),
                shown: old(surface).shown(),
                rng: *old(rng),
            },
            *goal,
            math.answers(),
        ),
{
    let dtime_left: Double = run.dtime_left;
    let step: Step = simulate(brush, state, run, goal, math);
    if !step.drawing {
        return false;
    }
    draw_step(brush, state, run, surface, rng, goal, math);
    run.dtime_left = dtime_left.minus(Double::from_single(step.dtime));
    run.dabs_todo =
    count_dabs_to(
        brush,
        state,
        run.x,
        run.y,
        goal.x,
        goal.y,
        run.dtime_left.narrow(),
        math,
    );
    true
}

/// Takes steps until the goal is reached.
fn run_to_goal<S: DabSurface, N: Fn(Narrow) -> Single, W: Fn(Wide) -> Double>(
    brush: &Brush,
    state: &mut BrushState,
    run: &mut Run,
    surface: &mut S,
    rng: &mut SampleRng,
    goal: &Goal,
    math: &Elementary<N, W>,
)
    requires
        brush.wf(),
        old(state).wf(),
        old(surface).ready(),
        old(rng).wf(),
        math.wf(),
    ensures
        final(state).wf(),
        final(surface).ready(),
        final(rng).wf(),
        (Scene {
            state: *final(state),
            run: *final(run),
            shown: final(surface).shown(),
            rng: *final(rng),
        }) == arrived::<S>(
            brush@,
            Scene {
                state: *old(state),
                run: *old(run),
                shown: old(surface).shown(),
                rng: *old(rng),
            },
            *goal,
            math.answers(),
            u64::MAX as nat,
        ),
{
    let ghost start = Scene { state: *state, run: *run, shown: surface.shown(), rng: *rng };
    let ghost end = arrived::<S>(brush@, start, *goal, math.answers(), u64::MAX as nat);
    let mut left: u64 = u64::MAX;
    let mut more: bool = true;
    while more && left > 0
        invariant
            brush.wf(),
            state.wf(),
            surface.ready(),
            rng.wf(),
            math.wf(),
            ({
                let now = Scene { state: *state, run: *run, shown: surface.shown(), rng: *rng };
                if more {
                    arrived::<S>(brush@, now, *goal, math.answers(), left as nat) == end
                } else {
                    now == end
                }
            }),
        decreases left,
    {
        more = take_step(brush, state, run, surface, rng, goal, math);
        left -= 1;
    }
}

/// A pointer event.
#[derive(Clone, Copy, Debug)]
pub struct Event {
    pub x: Single,
    pub y: Single,
    pub pressure: Single,
    pub xtilt: Single,
    pub ytilt: Single,
    /// Seconds since the last event.
    pub dtime: Double,
}

/// 0.0001 s: what an event takes at the least.
pub const LEAST_TIME: u64 = 0x3f1a_36e2_eb1c_432d;

/// 5 s: after such a pause a new stroke begins.
pub const PAUSE: u64 = 0x4014_0000_0000_0000;

/// The time of an event.
pub open spec fn time_of(e: Event) -> Double {
    if e.dtime.le(Double { bits: 0 }) {
        Double { bits: LEAST_TIME }
    } else {
        e.dtime
    }
}

/// The pressure that an event starts from.
pub open spec fn entry_pressure(state: BrushState, e: Event) -> Single {
    if state.started {
        state.last_pressure
    } else {
        unit(e.pressure)
    }
}

/// The memory without a skip window.
pub open spec fn unarmed(state: BrushState) -> BrushState {
    BrushState {
        skip_distance: Single { bits: 0 },
        skip_last_x: Single { bits: 0 },
        skip_last_y: Single { bits: 0 },
        skipped_dtime: Double { bits: 0 },
        ..state
    }
}

/// The memory after the skip window, the time of the event with that of the
/// dropped ones, and whether the event is dropped too: that is while the
/// cursor is still inside the window and no pause has passed.
pub open spec fn windowed(state: BrushState, x: Single, y: Single, dtime: Double, m: Answers) -> (
    BrushState,
    Double,
    bool,
) {
    let least = Single { bits: THOUSANDTH };
    if least.lt(state.skip_distance) {
        let left = state.skip_distance.minus(
            m.hypot(state.skip_last_x.minus(x), state.skip_last_y.minus(y)),
        );
        let time = state.skipped_dtime.plus(dtime);
        if least.lt(left) && time.le(Double { bits: PAUSE }) {
            (
                BrushState {
                    skip_distance: left,
                    skip_last_x: x,
                    skip_last_y: y,
                    skipped_dtime: time,
                    ..state
                },
                time,
                true,
            )
        } else {
            (unarmed(state), time, false)
        }
    } else {
        (state, dtime, false)
    }
}

fn pass_window<N: Fn(Narrow) -> Single, W: Fn(Wide) -> Double>(
    state: &mut BrushState,
    x: Single,
    y: Single,
    dtime: Double,
    math: &Elementary<N, W>,
) -> (r: (Double, bool))
    requires
        math.wf(),
    ensures
        (*final(state), r.0, r.1) == windowed(*old(state), x, y, dtime, math.answers()),
{
    let least = Single { bits: THOUSANDTH };
    if !least.lt(state.skip_distance) {
        return (dtime, false);
    }
    let dist = math.hypot(state.skip_last_x.minus(x), state.skip_last_y.minus(y));
    state.skip_last_x = x;
    state.skip_last_y = y;
    state.skipped_dtime = state.skipped_dtime.plus(dtime);
    state.skip_distance = state.skip_distance.minus(dist);
    let time: Double = state.skipped_dtime;
    if least.lt(state.skip_distance) && time.le(Double { bits: PAUSE }) {
        return (time, true);
    }
    state.skip_distance = Single { bits: 0 };
    state.skip_last_x = Single { bits: 0 };
    state.skip_last_y = Single { bits: 0 };
    state.skipped_dtime = Double { bits: 0 };
    (time, false)
}

/// The generator and a point after noise of a size is added to it, which
/// takes two normal numbers.
pub open spec fn noisy(
    rng: BrushRng,
    x: Single,
    y: Single,
    size: Single,
) -> (BrushRng, Single, Single) {
    if (Single { bits: THOUSANDTH }).lt(size) {
        (
            rng.drawn_gauss().drawn_gauss(),
            x.plus(rng.gauss().times(size)),
            y.plus(rng.drawn_gauss().gauss().times(size)),
        )
    } else {
        (rng, x, y)
    }
}

fn add_noise(state: &mut BrushState, x: Single, y: Single, size: Single) -> (p: (Single, Single))
    requires
        old(state).wf(),
    ensures
        final(state).wf(),
        (final(state).rng, p.0, p.1) == noisy(old(state).rng, x, y, size),
        *final(state) == (BrushState { rng: final(state).rng, ..*old(state) }),
{
    if (Single { bits: THOUSANDTH }).lt(size) {
        let nx = x.plus(state.rng.next_gauss().times(size));
        let ny = y.plus(state.rng.next_gauss().times(size));
        (nx, ny)
    } else {
        (x, y)
    }
}

/// The memory at the first event of a stroke: everything that a stroke
/// builds up is as if the last one were long finished.  The settings of the
/// last step stay.
pub open spec fn begun(
    b: BrushView,
    state: BrushState,
    x: Single,
    y: Single,
    dtime: Double,
    m: Answers,
) -> BrushState {
    let zero = Single { bits: 0 };
    let size = radius_of(b.base(BrushSetting::Radius), m).times(
        b.base(BrushSetting::TrackingNoise),
    );
    let (rng, sx, sy) = noisy(state.rng, x, y, size);
    BrushState {
        random_input: rng.unit(),
        rng: rng.drawn(),
        last_event_x: sx,
        last_event_y: sy,
        last_event_time: state.last_event_time.plus(dtime),
        actual_x: sx,
        actual_y: sy,
        actual_dab_x: sx,
        actual_dab_y: sy,
        last_dab_x: sx,
        last_dab_y: sy,
        dist_past_dab: zero,
        actual_h: b.base(BrushSetting::ColorH),
        actual_s: b.base(BrushSetting::ColorS),
        actual_v: b.base(BrushSetting::ColorV),
        smudge_ra: zero,
        smudge_ga: zero,
        smudge_ba: zero,
        smudge_a: zero,
        prev_col_r: zero,
        prev_col_g: zero,
        prev_col_b: zero,
        prev_col_a: zero,
        prev_col_recentness: zero,
        norm_speed1_slow: zero,
        norm_speed2_slow: zero,
        norm_dx_slow: zero,
        norm_dy_slow: zero,
        direction_dx: zero,
        direction_dy: zero,
        direction_angle_dx: zero,
        direction_angle_dy: zero,
        stroke_total_painting_time: Double { bits: 0 },
        stroke_current_idling_time: Double { bits: 0 },
        stroke_state: Single { bits: ONE },
        stroke_started: false,
        custom_input: zero,
        flip: Single { bits: MINUS_ONE },
        actual_radius: zero,
        dabs_per_actual_radius: zero,
        dabs_per_basic_radius: zero,
        dabs_per_second: zero,
        actual_elliptical_ratio: zero,
        actual_elliptical_angle: zero,
        ascension: zero,
        declination: zero,
        declination_x: zero,
        declination_y: zero,
        started: true,
        ..unarmed(state)
    }
}

fn begin_stroke<N: Fn(Narrow) -> Single, W: Fn(Wide) -> Double>(
    brush: &Brush,
    state: &mut BrushState,
    x: Single,
    y: Single,
    dtime: Double,
    math: &Elementary<N, W>,
)
    requires
        brush.wf(),
        old(state).wf(),
        math.wf(),
    ensures
        final(state).wf(),
        *final(state) == begun(brush@, *old(state), x, y, dtime, math.answers()),
{
    let zero = Single { bits: 0 };
    let size = exp_radius(brush.base(BrushSetting::Radius), math).times(
        brush.base(BrushSetting::TrackingNoise),
    );
    let (sx, sy): (Single, Single) = add_noise(state, x, y, size);
    state.random_input = state.rng.next_unit();
    *state =
    BrushState {
        skip_distance: zero,
        skip_last_x: zero,
        skip_last_y: zero,
        skipped_dtime: Double { bits: 0 },
        last_event_x: sx,
        last_event_y: sy,
        last_event_time: state.last_event_time.plus(dtime),
        actual_x: sx,
        actual_y: sy,
        actual_dab_x: sx,
        actual_dab_y: sy,
        last_dab_x: sx,
        last_dab_y: sy,
        dist_past_dab: zero,
        actual_h: brush.base(BrushSetting::ColorH),
        actual_s: brush.base(BrushSetting::ColorS),
        actual_v: brush.base(BrushSetting::ColorV),
        smudge_ra: zero,
        smudge_ga: zero,
        smudge_ba: zero,
        smudge_a: zero,
        prev_col_r: zero,
        prev_col_g: zero,
        prev_col_b: zero,
        prev_col_a: zero,
        prev_col_recentness: zero,
        norm_speed1_slow: zero,
        norm_speed2_slow: zero,
        norm_dx_slow: zero,
        norm_dy_slow: zero,
        direction_dx: zero,
        direction_dy: zero,
        direction_angle_dx: zero,
        direction_angle_dy: zero,
        stroke_total_painting_time: Double { bits: 0 },
        stroke_current_idling_time: Double { bits: 0 },
        stroke_state: Single { bits: ONE },
        stroke_started: false,
        custom_input: zero,
        flip: Single { bits: MINUS_ONE },
        actual_radius: zero,
        dabs_per_actual_radius: zero,
        dabs_per_basic_radius: zero,
        dabs_per_second: zero,
        actual_elliptical_ratio: zero,
        actual_elliptical_angle: zero,
        ascension: zero,
        declination: zero,
        declination_x: zero,
        declination_y: zero,
        started: true,
        ..*state
    };
}

/// 90, and the degrees in a radian.
pub const UPRIGHT: u32 = 0x42b4_0000;

pub const RADIAN: u32 = 0x4265_2ee1;

/// How far the pen leans, its declination and its ascension.
pub open spec fn tilt_of(xtilt: Single, ytilt: Single, m: Answers) -> (Single, Single, Single) {
    let zero = Single { bits: 0 };
    let upright = Single { bits: UPRIGHT };
    if xtilt.same(zero) && ytilt.same(zero) {
        (zero, upright, zero)
    } else {
        let lean = m.sqrt(xtilt.times(xtilt).plus(ytilt.times(ytilt))).min(Single { bits: ONE });
        (
            lean,
            upright.minus(lean.times(Single { bits: TILT_DEGREES })),
            m.atan2(xtilt.negate(), ytilt).times(Single { bits: RADIAN }),
        )
    }
}

fn measure_tilt<N: Fn(Narrow) -> Single, W: Fn(Wide) -> Double>(
    xtilt: Single,
    ytilt: Single,
    math: &Elementary<N, W>,
) -> (r: (Single, Single, Single))
    requires
        math.wf(),
    ensures
        r == tilt_of(xtilt, ytilt, math.answers()),
{
    let zero = Single { bits: 0 };
    let upright = Single { bits: UPRIGHT };
    if xtilt.same(zero) && ytilt.same(zero) {
        return (zero, upright, zero);
    }
    let lean = math.sqrt(xtilt.times(xtilt).plus(ytilt.times(ytilt))).min(Single { bits: ONE });
    (
        lean,
        upright.minus(lean.times(Single { bits: TILT_DEGREES })),
        math.atan2(xtilt.negate(), ytilt).times(Single { bits: RADIAN }),
    )
}

/// 100.
pub const PER_HUNDREDTH: u64 = 0x4059_0000_0000_0000;

/// The part of the way to the cursor that slow tracking goes.
pub open spec fn tracking_share(b: BrushView, dtime: Double, m: Answers) -> Single {
    share_in(
        (Double { bits: PER_HUNDREDTH }).times(dtime).narrow(),
        b.base(BrushSetting::SlowTracking).max(Single { bits: 0 }),
        m,
    )
}

/// The size of the noise on the cursor.
pub open spec fn tracking_noise(b: BrushView, m: Answers) -> Single {
    radius_of(b.base(BrushSetting::Radius), m).times(
        b.base(BrushSetting::TrackingNoise).max(Single { bits: 0 }),
    )
}

/// The memory with a skip window of half the noise.
pub open spec fn armed(state: BrushState, x: Single, y: Single, size: Single) -> BrushState {
    if (Single { bits: THOUSANDTH }).lt(size) {
        BrushState {
            skip_distance: (Single { bits: HALF }).times(size),
            skip_last_x: x,
            skip_last_y: y,
            ..state
        }
    } else {
        state
    }
}

/// The memory before the simulation of an event, and its goal.
pub open spec fn aimed(b: BrushView, state: BrushState, e: Event, dtime: Double, m: Answers) -> (
    BrushState,
    Goal,
) {
    let size = tracking_noise(b, m);
    let (rng, nx, ny) = noisy(state.rng, e.x, e.y, size);
    let share = tracking_share(b, dtime, m);
    let tilt = tilt_of(e.xtilt, e.ytilt, m);
    (
        BrushState { rng, ..armed(state, e.x, e.y, size) },
        Goal {
            x: approached(state.actual_x, nx, share),
            y: approached(state.actual_y, ny, share),
            pressure: unit(e.pressure),
            xtilt: e.xtilt,
            ytilt: e.ytilt,
            tilt: tilt.0,
            declination: tilt.1,
            ascension: tilt.2,
            pressure_gain: m.exp(b.base(BrushSetting::PressureGainLog)),
            base_radius: radius_of(b.base(BrushSetting::Radius), m),
            stroke_threshold: b.base(BrushSetting::StrokeThreshold).max(Single { bits: 0 }),
        },
    )
}

fn aim<N: Fn(Narrow) -> Single, W: Fn(Wide) -> Double>(
    brush: &Brush,
    state: &mut BrushState,
    e: &Event,
    dtime: Double,
    math: &Elementary<N, W>,
) -> (goal: Goal)
    requires
        brush.wf(),
        old(state).wf(),
        math.wf(),
    ensures
        final(state).wf(),
        (*final(state), goal) == aimed(brush@, *old(state), *e, dtime, math.answers()),
{
    let zero = Single { bits: 0 };
    let stroke_threshold = brush.base(BrushSetting::StrokeThreshold).max(zero);
    let tilt: (Single, Single, Single) = measure_tilt(e.xtilt, e.ytilt, math);
    let pressure_gain = math.exp(brush.base(BrushSetting::PressureGainLog));
    let base_radius = exp_radius(brush.base(BrushSetting::Radius), math);
    let share = decay_share(
        (Double { bits: PER_HUNDREDTH }).times(dtime).narrow(),
        brush.base(BrushSetting::SlowTracking).max(zero),
        math,
    );
    let size = base_radius.times(brush.base(BrushSetting::TrackingNoise).max(zero));
    if (Single { bits: THOUSANDTH }).lt(size) {
        state.skip_distance = (Single { bits: HALF }).times(size);
        state.skip_last_x = e.x;
        state.skip_last_y = e.y;
    }
    let (nx, ny): (Single, Single) = add_noise(state, e.x, e.y, size);
    Goal {
        x: approach(state.actual_x, nx, share),
        y: approach(state.actual_y, ny, share),
        pressure: to_unit(e.pressure),
        xtilt: e.xtilt,
        ytilt: e.ytilt,
        tilt: tilt.0,
        declination: tilt.1,
        ascension: tilt.2,
        pressure_gain,
        base_radius,
        stroke_threshold,
    }
}

/// The run that an event starts with, before its dabs are counted.
pub open spec fn launched(state: BrushState, pressure: Single, dtime: Double) -> Run {
    Run {
        x: state.actual_x,
        y: state.actual_y,
        ax: state.actual_dab_x,
        ay: state.actual_dab_y,
        pressure,
        dtime_left: dtime,
        dabs_moved: state.dist_past_dab,
        dabs_todo: Single { bits: 0 },
        painted: false,
    }
}

/// The memory after an event.
pub open spec fn committed(
    state: BrushState,
    run: Run,
    goal: Goal,
    e: Event,
    dtime: Double,
) -> BrushState {
    BrushState {
        dist_past_dab: run.dabs_moved.plus(run.dabs_todo),
        last_event_x: e.x,
        last_event_y: e.y,
        last_event_time: state.last_event_time.plus(dtime),
        actual_x: goal.x,
        actual_y: goal.y,
        actual_dab_x: run.ax,
        actual_dab_y: run.ay,
        stroke_total_painting_time: if run.painted {
            state.stroke_total_painting_time.plus(dtime)
        } else {
            state.stroke_total_painting_time
        },
        stroke_current_idling_time: if run.painted {
            state.stroke_current_idling_time
        } else {
            state.stroke_current_idling_time.plus(dtime)
        },
        ..state
    }
}

/// A brush and a surface after an event, and whether anything was painted.
pub struct Outcome<T> {
    pub state: BrushState,
    pub shown: T,
    pub rng: SampleRng,
    pub painted: bool,
}

/// The simulation of an event that neither is dropped nor begins a stroke.
pub open spec fn simulated<S: DabSurface>(
    b: BrushView,
    state: BrushState,
    shown: S::Shown,
    rng: SampleRng,
    e: Event,
    pressure: Single,
    dtime: Double,
    m: Answers,
) -> Outcome<S::Shown> {
    let (s, goal) = aimed(b, state, e, dtime, m);
    let run = launched(s, pressure, dtime);
    let start = counted(b, Scene { state: s, run, shown, rng }, goal, dtime, m);
    let end = arrived::<S>(b, start, goal, m, u64::MAX as nat);
    Outcome {
        state: committed(end.state, end.run, goal, e, dtime),
        shown: end.shown,
        rng: end.rng,
        painted: end.run.painted,
    }
}

/// What an event does.
pub open spec fn after_event<S: DabSurface>(
    b: BrushView,
    state: BrushState,
    shown: S::Shown,
    rng: SampleRng,
    e: Event,
    m: Answers,
) -> Outcome<S::Shown> {
    let (s, dtime, dropped) = windowed(state, e.x, e.y, time_of(e), m);
    let pressure = entry_pressure(state, e);
    if dropped {
        Outcome { state: BrushState { last_pressure: pressure, ..s }, shown, rng, painted: false }
    } else {
        let s = BrushState { last_pressure: unit(e.pressure), ..s };
        if !s.started || (Double { bits: PAUSE }).le(dtime) {
            Outcome { state: begun(b, s, e.x, e.y, dtime, m), shown, rng, painted: false }
        } else {
            simulated::<S>(b, s, shown, rng, e, pressure, dtime, m)
        }
    }
}

impl Brush {
    fn follow_event<S: DabSurface, N: Fn(Narrow) -> Single, W: Fn(Wide) -> Double>(
        &self,
        state: &mut BrushState,
        surface: &mut S,
        rng: &mut SampleRng,
        e: &Event,
        pressure: Single,
        dtime: Double,
        math: &Elementary<N, W>,
    ) -> (painted: bool)
        requires
            self.wf(),
            old(state).wf(),
            old(surface).ready(),
            old(rng).wf(),
            math.wf(),
        ensures
            final(state).wf(),
            final(surface).ready(),
            final(rng).wf(),
            (Outcome {
                state: *final(state),
                shown: final(surface).shown(),
                rng: *final(rng),
                painted,
            }) == simulated::<S>(
                self@,
                *old(state),
                old(surface).shown(),
                *old(rng),
                *e,
                pressure,
                dtime,
                math.answers(),
            ),
    {
        let goal: Goal = aim(self, state, e, dtime, math);
        let mut run = Run {
            x: state.actual_x,
            y: state.actual_y,
            ax: state.actual_dab_x,
            ay: state.actual_dab_y,
            pressure,
            dtime_left: dtime,
            dabs_moved: state.dist_past_dab,
            dabs_todo: Single { bits: 0 },
            painted: false,
        };
        run.dabs_todo =
        count_dabs_to(self, state, run.x, run.y, goal.x, goal.y, dtime.narrow(), math);
        run_to_goal(self, state, &mut run, surface, rng, &goal, math);
        state.dist_past_dab = run.dabs_moved.plus(run.dabs_todo);
        state.last_event_x = e.x;
        state.last_event_y = e.y;
        state.last_event_time = state.last_event_time.plus(dtime);
        state.actual_x = goal.x;
        state.actual_y = goal.y;
        state.actual_dab_x = run.ax;
        state.actual_dab_y = run.ay;
        if run.painted {
            state.stroke_total_painting_time = state.stroke_total_painting_time.plus(dtime);
        } else {
            state.stroke_current_idling_time = state.stroke_current_idling_time.plus(dtime);
        }
        run.painted
    }

    /// Feeds one pointer event to the brush, `dtime` seconds after the last one.
    /// Returns whether anything was painted.
    ///
    /// An event is simulated to its end or for `u64::MAX` steps, whichever
    /// comes first.
    pub fn stroke_to<S: DabSurface, N: Fn(Narrow) -> Single, W: Fn(Wide) -> Double>(
        &self,
        state: &mut BrushState,
        surface: &mut S,
        x: Single,
        y: Single,
        pressure: Single,
        xtilt: Single,
        ytilt: Single,
        dtime: Double,
        rng: &mut SampleRng,
        math: &Elementary<N, W>,
    ) -> (painted: bool)
        requires
            self.wf(),
            old(state).wf(),
            old(surface).ready(),
            old(rng).wf(),
            math.wf(),
        ensures
            final(state).wf(),
            final(surface).ready(),
            final(rng).wf(),
            (Outcome {
                state: *final(state),
                shown: final(surface).shown(),
                rng: *final(rng),
                painted,
            }) == after_event::<S>(
                self@,
                *old(state),
                old(surface).shown(),
                *old(rng),
                (Event { x, y, pressure, xtilt, ytilt, dtime }),
                math.answers(),
            ),
    {
        let e = Event { x, y, pressure, xtilt, ytilt, dtime };
        let pressure = if state.started {
            state.last_pressure
        } else {
            to_unit(e.pressure)
        };
        let dtime: Double = if e.dtime.le(Double { bits: 0 }) {
            Double { bits: LEAST_TIME }
        } else {
            e.dtime
        };
        let (dtime, dropped): (Double, bool) = pass_window(state, x, y, dtime, math);
        if dropped {
            state.last_pressure = pressure;
            return false;
        }
        state.last_pressure = to_unit(e.pressure);
        if !state.started || (Double { bits: PAUSE }).le(dtime) {
            begin_stroke(self, state, x, y, dtime, math);
            return false;
        }
        self.follow_event(state, surface, rng, &e, pressure, dtime, math)
    }
}

/// 0.016 s.
pub const IDLE_TIME: u64 = 0x3f90_624d_d2f1_a9fc;

/// An event that only lets time pass.
pub open spec fn idle(state: BrushState, pressure: Single) -> Event {
    Event {
        x: state.last_event_x,
        y: state.last_event_y,
        pressure,
        xtilt: Single { bits: 0 },
        ytilt: Single { bits: 0 },
        dtime: Double { bits: IDLE_TIME },
    }
}

/// Whether the cursor that is followed is less than half a pixel behind.
pub open spec fn caught_up(state: BrushState, m: Answers) -> bool {
    let dx = state.last_event_x.minus(state.actual_x);
    let dy = state.last_event_y.minus(state.actual_y);
    m.sqrt(dx.times(dx).plus(dy.times(dy))).lt(Single { bits: HALF })
}

/// What up to `n` idle events do: there are no more of them once the cursor
/// is caught up with.
pub open spec fn idled<S: DabSurface>(
    b: BrushView,
    o: Outcome<S::Shown>,
    pressure: Single,
    m: Answers,
    n: nat,
) -> Outcome<S::Shown>
    decreases n,
{
    if n == 0 {
        o
    } else {
        let next = after_event::<S>(b, o.state, o.shown, o.rng, idle(o.state, pressure), m);
        let next = Outcome { painted: o.painted || next.painted, ..next };
        if caught_up(next.state, m) {
            next
        } else {
            idled::<S>(b, next, pressure, m, (n - 1) as nat)
        }
    }
}

/// What the end of a stroke does.
pub open spec fn after_finish<S: DabSurface>(
    b: BrushView,
    state: BrushState,
    shown: S::Shown,
    rng: SampleRng,
    m: Answers,
) -> Outcome<S::Shown> {
    let o = Outcome { state, shown, rng, painted: false };
    if state.started {
        idled::<S>(b, o, state.last_pressure, m, 8)
    } else {
        o
    }
}

impl Brush {
    /// Lets the brush catch up with the cursor and paint what is left of the
    /// stroke.  Returns whether anything was painted.
    pub fn finish_stroke<S: DabSurface, N: Fn(Narrow) -> Single, W: Fn(Wide) -> Double>(
        &self,
        state: &mut BrushState,
        surface: &mut S,
        rng: &mut SampleRng,
        math: &Elementary<N, W>,
    ) -> (painted: bool)
        requires
            self.wf(),
            old(state).wf(),
            old(surface).ready(),
            old(rng).wf(),
            math.wf(),
        ensures
            final(state).wf(),
            final(surface).ready(),
            final(rng).wf(),
            (Outcome {
                state: *final(state),
                shown: final(surface).shown(),
                rng: *final(rng),
                painted,
            }) == after_finish::<S>(
                self@,
                *old(state),
                old(surface).shown(),
                *old(rng),
                math.answers(),
            ),
    {
        if !state.started {
            return false;
        }
        let pressure = state.last_pressure;
        let mut painted: bool = false;
        let mut done: bool = false;
        let mut left: u32 = 8;
        let ghost end = after_finish::<S>(
            self@,
            *state,
            surface.shown(),
            *rng,
            math.answers(),
        );
        while !done && left > 0
            invariant
                self.wf(),
                state.wf(),
                surface.ready(),
                rng.wf(),
                math.wf(),
                ({
                    let now = Outcome {
                        state: *state,
                        shown: surface.shown(),
                        rng: *rng,
                        painted,
                    };
                    if done {
                        now == end
                    } else {
                        idled::<S>(self@, now, pressure, math.answers(), left as nat) == end
                    }
                }),
            decreases left,
        {
            let zero = Single { bits: 0 };
            let more: bool = self.stroke_to(
                state,
                surface,
                state.last_event_x,
                state.last_event_y,
                pressure,
                zero,
                zero,
                Double { bits: IDLE_TIME },
                rng,
                math,
            );
            painted = painted || more;
            let dx = state.last_event_x.minus(state.actual_x);
            let dy = state.last_event_y.minus(state.actual_y);
            done = math.sqrt(dx.times(dx).plus(dy.times(dy))).lt(Single { bits: HALF });
            left -= 1;
        }
        painted
    }
}

/// An event inside the skip window changes nothing but the window and the
/// pressure: no random number is drawn and nothing is painted.
pub proof fn law_dropped_event_only_waits<S: DabSurface>(
    b: BrushView,
    state: BrushState,
    shown: S::Shown,
    rng: SampleRng,
    e: Event,
    m: Answers,
)
    requires
        windowed(state, e.x, e.y, time_of(e), m).2,
    ensures
        ({
            let o = after_event::<S>(b, state, shown, rng, e, m);
            &&& !o.painted
            &&& o.shown == shown
            &&& o.rng == rng
            &&& unarmed(o.state) == unarmed(
                BrushState { last_pressure: entry_pressure(state, e), ..state },
            )
        }),
{
}

/// The first event of a stroke, or the first after a pause, paints nothing
/// and leaves every tracked position at one point.
pub proof fn law_first_event_only_seeds<S: DabSurface>(
    b: BrushView,
    state: BrushState,
    shown: S::Shown,
    rng: SampleRng,
    e: Event,
    m: Answers,
)
    requires
        !windowed(state, e.x, e.y, time_of(e), m).2,
        !state.started || (Double { bits: PAUSE }).le(
            windowed(state, e.x, e.y, time_of(e), m).1,
        ),
    ensures
        ({
            let o = after_event::<S>(b, state, shown, rng, e, m);
            &&& !o.painted
            &&& o.shown == shown
            &&& o.rng == rng
            &&& o.state.started
            &&& o.state.prev_settings == state.prev_settings
            &&& o.state.actual_x == o.state.last_event_x
            &&& o.state.actual_dab_x == o.state.last_event_x
            &&& o.state.last_dab_x == o.state.last_event_x
            &&& o.state.actual_y == o.state.last_event_y
            &&& o.state.actual_dab_y == o.state.last_event_y
            &&& o.state.last_dab_y == o.state.last_event_y
            &&& !(Single { bits: THOUSANDTH }).lt(
                radius_of(b.base(BrushSetting::Radius), m).times(
                    b.base(BrushSetting::TrackingNoise),
                ),
            ) ==> o.state.actual_x == e.x && o.state.actual_y == e.y && o.state.rng
                == state.rng.drawn()
        }),
{
}

/// A way on which no full dab is due is simulated in one step, which paints
/// nothing and draws no random number.
pub proof fn law_short_way_paints_nothing<S: DabSurface>(
    b: BrushView,
    c: Scene<S::Shown>,
    goal: Goal,
    m: Answers,
    limit: nat,
)
    requires
        !due(c.run),
        limit > 0,
    ensures
        ({
            let end = arrived::<S>(b, c, goal, m, limit);
            &&& end.shown == c.shown
            &&& end.rng == c.rng
            &&& end.run.painted == c.run.painted
            &&& end.state.rng == c.state.rng
            &&& end.state.flip == c.state.flip
            &&& end.run.dabs_moved == c.run.dabs_moved
            &&& end.run.dabs_todo == c.run.dabs_todo
        }),
{
}

/// A brush that never smudges leaves the sampling numbers alone, whatever it
/// paints.
pub proof fn law_unsmudged_run_samples_nothing<S: DabSurface>(
    b: BrushView,
    c: Scene<S::Shown>,
    goal: Goal,
    m: Answers,
    limit: nat,
)
    requires
        b.base(BrushSetting::Smudge).same(Single { bits: 0 }),
        !b.mapped(BrushSetting::Smudge),
    ensures
        arrived::<S>(b, c, goal, m, limit).rng == c.rng,
    decreases limit,
{
    if limit > 0 && due(c.run) {
        law_unsmudged_run_samples_nothing::<S>(
            b,
            after_step::<S>(b, c, goal, m),
            goal,
            m,
            (limit - 1) as nat,
        );
    }
}

/// Something is reported as painted once any dab of the run changed a pixel,
/// and never taken back.
pub proof fn law_painted_stays_painted<S: DabSurface>(
    b: BrushView,
    c: Scene<S::Shown>,
    goal: Goal,
    m: Answers,
    limit: nat,
)
    requires
        c.run.painted,
    ensures
        arrived::<S>(b, c, goal, m, limit).run.painted,
    decreases limit,
{
    if limit > 0 && due(c.run) {
        law_painted_stays_painted::<S>(
            b,
            after_step::<S>(b, c, goal, m),
            goal,
            m,
            (limit - 1) as nat,
        );
    }
}

/// The last step of a run ends at the goal with nothing due: a run that takes
/// fewer steps than its limit takes the same steps under any larger one.
pub proof fn law_limit_does_not_matter<S: DabSurface>(
    b: BrushView,
    c: Scene<S::Shown>,
    goal: Goal,
    m: Answers,
    n: nat,
    limit: nat,
)
    requires
        n <= limit,
        ends_within::<S>(b, c, goal, m, n),
    ensures
        arrived::<S>(b, c, goal, m, limit) == arrived::<S>(b, c, goal, m, n),
    decreases n,
{
    if due(c.run) {
        law_limit_does_not_matter::<S>(
            b,
            after_step::<S>(b, c, goal, m),
            goal,
            m,
            (n - 1) as nat,
            (limit - 1) as nat,
        );
    }
}

/// Whether a run ends within `n` steps.
pub open spec fn ends_within<S: DabSurface>(
    b: BrushView,
    c: Scene<S::Shown>,
    goal: Goal,
    m: Answers,
    n: nat,
) -> bool
    decreases n,
{
    n > 0 && (due(c.run) ==> ends_within::<S>(
        b,
        after_step::<S>(b, c, goal, m),
        goal,
        m,
        (n - 1) as nat,
    ))
}

/// Finishing a stroke that never began does nothing.
pub proof fn law_finish_without_stroke<S: DabSurface>(
    b: BrushView,
    state: BrushState,
    shown: S::Shown,
    rng: SampleRng,
    m: Answers,
)
    requires
        !state.started,
    ensures
        after_finish::<S>(b, state, shown, rng, m) == (Outcome::<S::Shown> {
            state,
            shown,
            rng,
            painted: false,
        }),
{
}

/// Whether a brush makes only dabs of a kind, wherever it is, however it is
/// moved and whatever it remembers.
pub open spec fn makes(b: BrushView, kind: spec_fn(Dab) -> bool) -> bool {
    forall|
        inputs: Seq<Single>,
        state: BrushState,
        x: Single,
        y: Single,
        radius: Single,
        smudge: Single,
        scale: Single,
        m: Answers,
    |
        kind(
            #[trigger] dab_at(b, settings_at(b, inputs), state, x, y, radius, smudge, scale, m),
        )
}

/// Whether every dab of a kind keeps a property of what there is to see.
pub open spec fn kept_by_dabs<S: DabSurface>(
    kind: spec_fn(Dab) -> bool,
    kept: spec_fn(S::Shown) -> bool,
) -> bool {
    forall|shown: S::Shown, dab: Dab, turn: Turn|
        kept(shown) && kind(dab) ==> kept(#[trigger] S::dabbed(shown, dab, turn))
}

proof fn lemma_run_keeps<S: DabSurface>(
    b: BrushView,
    c: Scene<S::Shown>,
    goal: Goal,
    m: Answers,
    limit: nat,
    kind: spec_fn(Dab) -> bool,
    kept: spec_fn(S::Shown) -> bool,
)
    requires
        makes(b, kind),
        kept_by_dabs::<S>(kind, kept),
        kept(c.shown),
    ensures
        kept(arrived::<S>(b, c, goal, m, limit).shown),
    decreases limit,
{
    if limit > 0 && due(c.run) {
        lemma_run_keeps::<S>(
            b,
            after_step::<S>(b, c, goal, m),
            goal,
            m,
            (limit - 1) as nat,
            kind,
            kept,
        );
    }
}

/// What every dab of a kind keeps, every event keeps with a brush that makes
/// only dabs of this kind.
pub proof fn law_events_keep_what_dabs_keep<S: DabSurface>(
    b: BrushView,
    state: BrushState,
    shown: S::Shown,
    rng: SampleRng,
    e: Event,
    m: Answers,
    kind: spec_fn(Dab) -> bool,
    kept: spec_fn(S::Shown) -> bool,
)
    requires
        makes(b, kind),
        kept_by_dabs::<S>(kind, kept),
        kept(shown),
    ensures
        kept(after_event::<S>(b, state, shown, rng, e, m).shown),
{
    let (s, dtime, dropped) = windowed(state, e.x, e.y, time_of(e), m);
    let s = BrushState { last_pressure: unit(e.pressure), ..s };
    let (s, goal) = aimed(b, s, e, dtime, m);
    let run = launched(s, entry_pressure(state, e), dtime);
    let start = counted(b, Scene { state: s, run, shown, rng }, goal, dtime, m);
    lemma_run_keeps::<S>(b, start, goal, m, u64::MAX as nat, kind, kept);
}

proof fn lemma_idling_keeps<S: DabSurface>(
    b: BrushView,
    o: Outcome<S::Shown>,
    pressure: Single,
    m: Answers,
    n: nat,
    kind: spec_fn(Dab) -> bool,
    kept: spec_fn(S::Shown) -> bool,
)
    requires
        makes(b, kind),
        kept_by_dabs::<S>(kind, kept),
        kept(o.shown),
    ensures
        kept(idled::<S>(b, o, pressure, m, n).shown),
    decreases n,
{
    if n > 0 {
        let e = idle(o.state, pressure);
        law_events_keep_what_dabs_keep::<S>(b, o.state, o.shown, o.rng, e, m, kind, kept);
        let next = after_event::<S>(b, o.state, o.shown, o.rng, e, m);
        let next = Outcome { painted: o.painted || next.painted, ..next };
        lemma_idling_keeps::<S>(b, next, pressure, m, (n - 1) as nat, kind, kept);
    }
}

/// What every dab of a kind keeps, the end of a stroke keeps with a brush that
/// makes only dabs of this kind.
pub proof fn law_finishing_keeps_what_dabs_keep<S: DabSurface>(
    b: BrushView,
    state: BrushState,
    shown: S::Shown,
    rng: SampleRng,
    m: Answers,
    kind: spec_fn(Dab) -> bool,
    kept: spec_fn(S::Shown) -> bool,
)
    requires
        makes(b, kind),
        kept_by_dabs::<S>(kind, kept),
        kept(shown),
    ensures
        kept(after_finish::<S>(b, state, shown, rng, m).shown),
{
    let o = Outcome { state, shown, rng, painted: false };
    lemma_idling_keeps::<S>(b, o, state.last_pressure, m, 8, kind, kept);
}

proof fn lemma_unpainted_run<T: TiledSurface>(
    b: BrushView,
    c: Scene<Canvas>,
    goal: Goal,
    m: Answers,
    limit: nat,
)
    requires
        !arrived::<T>(b, c, goal, m, limit).run.painted,
    ensures
        !differs(c.shown.tiles, arrived::<T>(b, c, goal, m, limit).shown.tiles),
    decreases limit,
{
    if limit > 0 && due(c.run) {
        let next = after_step::<T>(b, c, goal, m);
        if next.run.painted {
            law_painted_stays_painted::<T>(b, next, goal, m, (limit - 1) as nat);
        }
        lemma_unpainted_run::<T>(b, next, goal, m, (limit - 1) as nat);
        assert(!differs(c.shown.tiles, next.shown.tiles));
        lemma_same_pixels(
            c.shown,
            next.shown,
            arrived::<T>(b, next, goal, m, (limit - 1) as nat).shown,
        );
    }
}

/// A canvas that looks like another that looks like a third looks like that.
proof fn lemma_same_pixels(a: Canvas, b: Canvas, c: Canvas)
    requires
        !differs(a.tiles, b.tiles),
        !differs(b.tiles, c.tiles),
    ensures
        !differs(a.tiles, c.tiles),
{
    assert forall|tx: i32, ty: i32, x: int, y: int|
        0 <= x < 64 && 0 <= y < 64 implies #[trigger] canvas_pixel(c.tiles, tx, ty, x, y)
        == canvas_pixel(a.tiles, tx, ty, x, y) by {
        assert(canvas_pixel(c.tiles, tx, ty, x, y) == canvas_pixel(b.tiles, tx, ty, x, y));
        assert(canvas_pixel(b.tiles, tx, ty, x, y) == canvas_pixel(a.tiles, tx, ty, x, y));
    }
}

/// An event that reports nothing painted has changed no pixel on a canvas of
/// tiles.
pub proof fn law_unpainted_event_changes_nothing<T: TiledSurface>(
    b: BrushView,
    state: BrushState,
    shown: Canvas,
    rng: SampleRng,
    e: Event,
    m: Answers,
)
    requires
        !after_event::<T>(b, state, shown, rng, e, m).painted,
    ensures
        !differs(shown.tiles, after_event::<T>(b, state, shown, rng, e, m).shown.tiles),
{
    let (s, dtime, dropped) = windowed(state, e.x, e.y, time_of(e), m);
    let s = BrushState { last_pressure: unit(e.pressure), ..s };
    if !dropped && s.started && !(Double { bits: PAUSE }).le(dtime) {
        let (s, goal) = aimed(b, s, e, dtime, m);
        let run = launched(s, entry_pressure(state, e), dtime);
        let start = counted(b, Scene { state: s, run, shown, rng }, goal, dtime, m);
        lemma_unpainted_run::<T>(b, start, goal, m, u64::MAX as nat);
    }
}

/// Slower tracking aims at a point on the way that faster tracking goes: with
/// the same noise, and shares of the way of which the first is no more than
/// the second.
pub proof fn law_slower_tracking_stays_behind(
    b: BrushView,
    faster: BrushView,
    state: BrushState,
    e: Event,
    dtime: Double,
    m: Answers,
)
    requires
        tracking_noise(b, m) == tracking_noise(faster, m),
        (Single { bits: 0 }).le(tracking_share(b, dtime, m)),
        tracking_share(b, dtime, m).le(tracking_share(faster, dtime, m)),
        tracking_share(faster, dtime, m).le(Single { bits: ONE }),
        state.actual_x.finite(),
        state.actual_y.finite(),
        ({
            let (_, nx, ny) = noisy(state.rng, e.x, e.y, tracking_noise(b, m));
            nx.minus(state.actual_x).finite() && ny.minus(state.actual_y).finite()
        }),
    ensures
        between(
            state.actual_x,
            aimed(b, state, e, dtime, m).1.x,
            aimed(faster, state, e, dtime, m).1.x,
        ),
        between(
            state.actual_y,
            aimed(b, state, e, dtime, m).1.y,
            aimed(faster, state, e, dtime, m).1.y,
        ),
{
    let (_, nx, ny) = noisy(state.rng, e.x, e.y, tracking_noise(b, m));
    let share = tracking_share(b, dtime, m);
    let more = tracking_share(faster, dtime, m);
    law_smaller_part_stays_behind(state.actual_x, nx, share, more);
    law_smaller_part_stays_behind(state.actual_y, ny, share, more);
}

/// Slow tracking goes a part of the way and no more, as far as the answer for
/// the exponential is in `[0, 1]`; without it, tracking goes all the way.
pub proof fn law_tracking_share_is_a_part(b: BrushView, dtime: Double, m: Answers)
    requires
        ({
            let t = (Double { bits: PER_HUNDREDTH }).times(dtime).narrow();
            let a = m.exp(t.negate().over(b.base(BrushSetting::SlowTracking)));
            in_unit(a) && !a.nan()
        }),
    ensures
        (Single { bits: 0 }).le(tracking_share(b, dtime, m)),
        tracking_share(b, dtime, m).le(Single { bits: ONE }),
        !(Single { bits: THOUSANDTH }).lt(b.base(BrushSetting::SlowTracking)) ==> tracking_share(
            b,
            dtime,
            m,
        ) == (Single { bits: ONE }),
{
    let slow = b.base(BrushSetting::SlowTracking);
    lemma_one();
    if (Single { bits: THOUSANDTH }).lt(slow) {
        let t = (Double { bits: PER_HUNDREDTH }).times(dtime).narrow();
        let a = m.exp(t.negate().over(slow));
        lemma_infinity_units();
        lemma_rest_in_unit(a);
        lemma_negate(a);
        lemma_plus_value(Single { bits: ONE }, a.negate());
        lemma_no_units(Single { bits: THOUSANDTH });
    }
}

/// Whether the dabs that are due on a way are counted without overflow, from
/// radii above zero and densities of at least zero.
pub open spec fn countable(
    b: BrushView,
    state: BrushState,
    dx: Single,
    dy: Single,
    dt: Single,
    m: Answers,
) -> bool {
    let zero = Single { bits: 0 };
    let base_radius = radius_of(b.base(BrushSetting::Radius), m);
    let radius = last_radius(state, base_radius);
    let dist = reach(state, dx, dy, m);
    let by_actual = density(
        state.dabs_per_actual_radius,
        b.base(BrushSetting::DabsPerActualRadius),
    );
    let by_basic = density(
        state.dabs_per_basic_radius,
        b.base(BrushSetting::DabsPerBasicRadius),
    );
    let by_time = if state.dabs_per_second.nan() {
        b.base(BrushSetting::DabsPerSecond)
    } else {
        state.dabs_per_second
    };
    let x = dist.over(radius).times(by_actual);
    let y = dist.over(base_radius).times(by_basic);
    &&& dist.finite() && zero.le(dist)
    &&& radius.finite() && zero.lt(radius)
    &&& base_radius.finite() && zero.lt(base_radius)
    &&& by_actual.finite() && zero.le(by_actual)
    &&& by_basic.finite() && zero.le(by_basic)
    &&& dist.over(radius).finite() && dist.over(base_radius).finite()
    &&& x.finite() && y.finite() && x.plus(y).finite() && dt.times(by_time).finite()
}

/// A shorter way, in the same time, needs no more dabs.
pub proof fn law_shorter_way_needs_no_more_dabs(
    b: BrushView,
    state: BrushState,
    dx: Single,
    dy: Single,
    far_dx: Single,
    far_dy: Single,
    dt: Single,
    m: Answers,
)
    requires
        reach(state, dx, dy, m).le(reach(state, far_dx, far_dy, m)),
        countable(b, state, dx, dy, dt, m),
        countable(b, state, far_dx, far_dy, dt, m),
    ensures
        dabs_due(b, state, dx, dy, dt, m).le(dabs_due(b, state, far_dx, far_dy, dt, m)),
{
    let base_radius = radius_of(b.base(BrushSetting::Radius), m);
    let radius = last_radius(state, base_radius);
    let near = reach(state, dx, dy, m);
    let far = reach(state, far_dx, far_dy, m);
    let by_actual = density(
        state.dabs_per_actual_radius,
        b.base(BrushSetting::DabsPerActualRadius),
    );
    let by_basic = density(
        state.dabs_per_basic_radius,
        b.base(BrushSetting::DabsPerBasicRadius),
    );
    let by_time = if state.dabs_per_second.nan() {
        b.base(BrushSetting::DabsPerSecond)
    } else {
        state.dabs_per_second
    };
    lemma_one();
    lemma_over_order(near, far, radius);
    lemma_over_order(near, far, base_radius);
    lemma_share_order(by_actual, near.over(radius), far.over(radius));
    lemma_share_order(by_basic, near.over(base_radius), far.over(base_radius));
    law_times_commutes(by_actual, near.over(radius));
    law_times_commutes(by_actual, far.over(radius));
    law_times_commutes(by_basic, near.over(base_radius));
    law_times_commutes(by_basic, far.over(base_radius));
    let (x, far_x) = (near.over(radius).times(by_actual), far.over(radius).times(by_actual));
    let (y, far_y) = (
        near.over(base_radius).times(by_basic),
        far.over(base_radius).times(by_basic),
    );
    lemma_plus_order(x, y, far_x, far_y);
    let t = dt.times(by_time);
    lemma_plus_order(x.plus(y), t, far_x.plus(far_y), t);
    lemma_plus_value(x.plus(y), t);
    lemma_plus_value(far_x.plus(far_y), t);
}

} // verus!
