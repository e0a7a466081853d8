//! That a brush whose dabs keep their size and their distance counts down: each
//! dab takes one from the dabs that are due, but for rounding.
use crate::brush::BrushView;
use crate::counting::{
    lemma_coordinate, lemma_count_left, lemma_counted, lemma_dab_taken, lemma_left_at_most,
    lemma_nearest_below, lemma_part_of_dab, lemma_plus_zero, lemma_stays_covered,
};
use crate::dab::between;
use crate::dab_count::{
    backlog, counts_down, dabs_made, hypot_keeps_order, law_slower_tracking_makes_no_more_dabs,
    same_but_tracking, started,
};
use crate::dab_surface::DabSurface;
use crate::double::Double;
use crate::dynamics::{due, entered, moved, next_step, step_inputs, Goal, Run};
use crate::elementary::Answers;
use crate::evaluator::evaluated;
use crate::rand::SampleRng;
use crate::range::{
    lemma_finite_or_infinite, lemma_negate, lemma_no_units, lemma_one, lemma_over_near,
    lemma_plus_near, lemma_times_near,
};
use crate::setting::{BrushSetting, NUM_SETTINGS};
use crate::single::{law_times_commutes, law_times_nothing, lemma_plus_commutes, Single, ONE};
use crate::smudge::{radius_of, smudge_step};
use crate::state::BrushState;
use crate::stroke::{
    after_step, aimed, countable, dabbed, density, last_radius, law_slower_tracking_stays_behind,
    noisy, placed, settings_at, simulated, stepped, tracking_noise, tracking_share, Event, Scene,
};
use crate::values::{lemma_settings_with, SettingValues};
use vstd::arithmetic::mul::*;
use vstd::arithmetic::power2::*;
use vstd::prelude::*;

verus! {

/// How far the way that is left is from the part that should be left, in one
/// coordinate, after the part `f` of it.
pub open spec fn off(f: Single, way: Single, rest: Single) -> int {
    let u = pow2(149) as int;
    let d = u * rest.value() - (u - f.value()) * way.value();
    if d < 0 {
        -d
    } else {
        d
    }
}

/// Whether the answers for a hypotenuse are lengths, to one part in 2^23: a
/// part of a way is as long as that part of its length, but for what the
/// coordinates are off.
pub open spec fn hypot_is_length(m: Answers) -> bool {
    forall|f: Single, dx: Single, dy: Single, fx: Single, fy: Single|
        #![trigger m.hypot(dx, dy), m.hypot(fx, fy), off(f, dx, fx)]
        f.finite() && 0 <= f.value() <= pow2(149) && dx.finite() && dy.finite() && fx.finite()
            && fy.finite() && m.hypot(dx, dy).finite() && m.hypot(fx, fy).finite() ==> {
            let u = pow2(149) as int;
            let h = m.hypot(dx, dy).value();
            let h2 = m.hypot(fx, fy).value();
            let most = 0x80_0000 * (off(f, dx, fx) + off(f, dy, fy)) + u * (h + h2) + 0x80_0000 * (2
                * u);
            &&& 0x80_0000 * (u * h2 - (u - f.value()) * h) <= most
            &&& 0x80_0000 * ((u - f.value()) * h - u * h2) <= most
        }
}

/// What keeps its size and its distance: dabs of one radius, of which
/// `density` are due on the way of a radius, in places of up to 2^k units.
pub struct Pace {
    pub radius: Single,
    pub density: Single,
    pub k: nat,
    /// Half of what counting can be off after a dab, in units of 2^-149.
    pub slack: int,
}

impl Pace {
    /// Radius, density and range that make counting sure to within the slack.
    pub open spec fn wf(self) -> bool {
        &&& self.radius.finite() && self.radius.value() >= pow2(140)
        &&& self.density.finite() && !self.density.negative()
        &&& self.density.value() <= 0x1_0000 * pow2(149)
        &&& 149 <= self.k <= 200
        &&& self.slack >= pow2(130)
        &&& 8 * (self.density.value() * pow2((self.k - 20) as nat)) <= self.slack
            * self.radius.value()
    }

    pub open spec fn covers(self, v: Single) -> bool {
        v.finite() && -pow2(self.k) <= v.value() <= pow2(self.k)
    }

    /// A goal in the inner half of the range.
    pub open spec fn aims(self, goal: Goal) -> bool {
        &&& goal.x.finite() && -pow2(self.k) <= 2 * goal.x.value() <= pow2(self.k)
        &&& goal.y.finite() && -pow2(self.k) <= 2 * goal.y.value() <= pow2(self.k)
    }
}

/// Whether a run keeps a pace: the dabs that are due are the way that is
/// left, in radii, times the density, and a dab that is due is not past the
/// goal.
pub open spec fn paced(run: Run, goal: Goal, m: Answers, p: Pace) -> bool {
    let h = m.hypot(goal.x.minus(run.x), goal.y.minus(run.y));
    let todo = run.dabs_todo;
    &&& p.covers(run.x) && p.covers(run.y) && p.covers(goal.x) && p.covers(goal.y)
    &&& h.finite() && !h.negative() && h.over(p.radius).finite()
    &&& todo == h.over(p.radius).times(p.density)
    &&& todo.finite() && todo.value() <= 0x2_0000 * p.slack
    &&& run.dabs_moved.finite() && 0 <= run.dabs_moved.value() <= pow2(149)
    &&& due(run) ==> 0 < todo.value() && next_step(run, goal).ddab.value() <= todo.value()
}

/// The places and the part of a dab after a step to a dab.
proof fn lemma_step_frame<S: DabSurface>(b: BrushView, c: Scene<S::Shown>, goal: Goal, m: Answers)
    requires
        due(c.run),
    ensures
        ({
            let next = after_step::<S>(b, c, goal, m).run;
            let f = next_step(c.run, goal).frac;
            &&& next.x == c.run.x.plus(f.times(goal.x.minus(c.run.x)))
            &&& next.y == c.run.y.plus(f.times(goal.y.minus(c.run.y)))
            &&& next.dabs_moved == (Single { bits: 0 })
        }),
{
}

/// One dab takes one from those that are due.
proof fn lemma_one_dab<S: DabSurface>(
    b: BrushView,
    c: Scene<S::Shown>,
    goal: Goal,
    m: Answers,
    p: Pace,
)
    requires
        p.wf(),
        hypot_is_length(m),
        due(c.run),
        paced(c.run, goal, m, p),
        paced(after_step::<S>(b, c, goal, m).run, goal, m, p),
    ensures
        ({
            let next = after_step::<S>(b, c, goal, m);
            &&& backlog(c.run) - pow2(149) - 2 * p.slack <= backlog(next.run)
            &&& backlog(next.run) <= backlog(c.run) - pow2(149) + 2 * p.slack
        }),
{
    let u = pow2(149) as int;
    let w = pow2(125) as int;
    let next = after_step::<S>(b, c, goal, m);
    let step = next_step(c.run, goal);
    let todo = c.run.dabs_todo;
    let (dx, dy) = (goal.x.minus(c.run.x), goal.y.minus(c.run.y));
    let (fx, fy) = (goal.x.minus(next.run.x), goal.y.minus(next.run.y));
    let f = step.frac;
    lemma_one();
    lemma_pow2_pos(140);
    lemma_pow2_adds(5, 125);
    lemma_pow2_adds(24, 125);
    lemma_pow2_pos(125);
    assert(pow2(5) == 32 && pow2(24) == 0x100_0000) by {
        lemma2_to64();
    }
    lemma_step_frame::<S>(b, c, goal, m);
    lemma_part_of_dab(c.run.dabs_moved, step.ddab, todo);
    lemma_coordinate(c.run.x, goal.x, f, p.k);
    lemma_coordinate(c.run.y, goal.y, f, p.k);
    let q = pow2((p.k - 20) as nat) as int;
    lemma_pow2_pos((p.k - 20) as nat);
    assert(off(f, dx, fx) <= u * q && off(f, dy, fy) <= u * q);
    let h = m.hypot(dx, dy);
    let h2 = m.hypot(fx, fy);
    lemma_counted(h, p.radius, p.density);
    lemma_counted(h2, p.radius, p.density);
    let a = todo.value();
    let a2 = next.run.dabs_todo.value();
    assert(pow2(130) >= 0x400_0000_0000) by {
        lemma_pow2_strictly_increases(42, 130);
        lemma2_to64_rest();
    }
    lemma_count_left(
        u,
        p.radius.value(),
        p.density.value(),
        f.value(),
        h.value(),
        a,
        h2.value(),
        a2,
        q,
        p.slack,
    );
    lemma_dab_taken(u, w, f.value(), step.ddab.value(), a, a2, p.slack);
}

/// Whether every scene keeps a pace on the way to the goal, for up to `limit`
/// dabs.
pub open spec fn keeps_pace<S: DabSurface>(
    b: BrushView,
    c: Scene<S::Shown>,
    goal: Goal,
    m: Answers,
    limit: nat,
    p: Pace,
) -> bool
    decreases limit,
{
    &&& paced(c.run, goal, m, p)
    &&& limit > 0 && due(c.run) ==> keeps_pace::<S>(
        b,
        after_step::<S>(b, c, goal, m),
        goal,
        m,
        (limit - 1) as nat,
        p,
    )
}

/// A brush that keeps a pace counts down: every dab takes one from those that
/// are due, to within twice the slack.
pub proof fn law_kept_pace_counts_down<S: DabSurface>(
    b: BrushView,
    c: Scene<S::Shown>,
    goal: Goal,
    m: Answers,
    limit: nat,
    p: Pace,
)
    requires
        p.wf(),
        hypot_is_length(m),
        keeps_pace::<S>(b, c, goal, m, limit, p),
    ensures
        counts_down::<S>(b, c, goal, m, limit, 2 * p.slack),
    decreases limit,
{
    if limit > 0 && due(c.run) {
        let next = after_step::<S>(b, c, goal, m);
        assert(keeps_pace::<S>(b, next, goal, m, (limit - 1) as nat, p));
        law_kept_pace_counts_down::<S>(b, next, goal, m, (limit - 1) as nat, p);
        lemma_one_dab::<S>(b, c, goal, m, p);
    }
}

/// Whether the dabs of a brush are round, keep their size, and come in a
/// distance that is a part of their radius, whatever the inputs.
pub open spec fn even(b: BrushView) -> bool {
    let zero = Single { bits: 0 };
    &&& b.settings.len() == NUM_SETTINGS
    &&& !b.mapped(BrushSetting::Radius)
    &&& !b.mapped(BrushSetting::DabsPerActualRadius)
    &&& !b.mapped(BrushSetting::DabsPerBasicRadius)
    &&& !b.mapped(BrushSetting::DabsPerSecond)
    &&& !b.mapped(BrushSetting::EllipticalDabRatio)
    &&& b.base(BrushSetting::DabsPerBasicRadius) == zero
    &&& b.base(BrushSetting::DabsPerSecond) == zero
    &&& !(Single { bits: ONE }).lt(b.base(BrushSetting::EllipticalDabRatio))
}

/// Whether the memory of a brush holds the size and the density of its dabs,
/// or none yet.
pub open spec fn settled(b: BrushView, s: BrushState, m: Answers) -> bool {
    let zero = Single { bits: 0 };
    let radius = radius_of(b.base(BrushSetting::Radius), m);
    let per_radius = b.base(BrushSetting::DabsPerActualRadius);
    let last = s.prev_settings;
    &&& last_radius(s, radius) == radius
    &&& density(s.dabs_per_actual_radius, per_radius) == per_radius
    &&& density(last.get(BrushSetting::DabsPerActualRadius), per_radius) == per_radius
    &&& density(s.dabs_per_basic_radius, zero) == zero
    &&& density(last.get(BrushSetting::DabsPerBasicRadius), zero) == zero
    &&& s.dabs_per_second == zero
    &&& last.get(BrushSetting::DabsPerSecond) == zero
    &&& !(Single { bits: ONE }).lt(s.actual_elliptical_ratio)
}

/// A setting without curves has its base value.
proof fn lemma_unmapped(b: BrushView, inputs: Seq<Single>, s: BrushSetting)
    requires
        b.settings.len() == NUM_SETTINGS,
        !b.mapped(s),
    ensures
        settings_at(b, inputs).get(s) == b.base(s),
{
    crate::setting::law_all_is_complete(s);
    lemma_settings_with(|i: int| evaluated(b.settings[i], inputs), s.index_spec() as int);
}

/// Picking up colour leaves alone what counting dabs depends on.
pub proof fn lemma_smudge_frame<S: DabSurface>(
    b: BrushView,
    sv: SettingValues,
    state: BrushState,
    shown: S::Shown,
    rng: SampleRng,
    x: Single,
    y: Single,
    radius: Single,
    m: Answers,
)
    ensures
        ({
            let s = smudge_step::<S>(b, sv, state, shown, rng, x, y, radius, m).0;
            &&& s.actual_radius == state.actual_radius
            &&& s.dabs_per_actual_radius == state.dabs_per_actual_radius
            &&& s.dabs_per_basic_radius == state.dabs_per_basic_radius
            &&& s.dabs_per_second == state.dabs_per_second
            &&& s.prev_settings == state.prev_settings
            &&& s.actual_elliptical_ratio == state.actual_elliptical_ratio
        }),
{
}

/// Drawing a dab leaves alone what counting dabs depends on.
proof fn lemma_dab_frame<S: DabSurface>(b: BrushView, c: Scene<S::Shown>, goal: Goal, m: Answers)
    ensures
        ({
            let d = dabbed::<S>(b, c, goal, m);
            &&& d.state.actual_radius == c.state.actual_radius
            &&& d.state.dabs_per_actual_radius == c.state.dabs_per_actual_radius
            &&& d.state.dabs_per_basic_radius == c.state.dabs_per_basic_radius
            &&& d.state.dabs_per_second == c.state.dabs_per_second
            &&& d.state.prev_settings == c.state.prev_settings
            &&& d.state.actual_elliptical_ratio == c.state.actual_elliptical_ratio
            &&& d.run.x == c.run.x
            &&& d.run.y == c.run.y
            &&& d.run.dabs_moved == c.run.dabs_moved
        }),
{
    let sv = c.state.prev_settings;
    let (s, p) = placed(c.state, sv, c.run, goal.base_radius, m);
    lemma_smudge_frame::<S>(b, sv, s, c.shown, c.rng, p.x, p.y, p.radius, m);
}

/// What a step makes of the memory that counting dabs depends on.
proof fn lemma_stepped_frame(b: BrushView, state: BrushState, run: Run, goal: Goal, m: Answers)
    requires
        even(b),
    ensures
        ({
            let s = stepped(b, state, run, goal, m).0;
            let last = state.prev_settings;
            &&& s.actual_radius == radius_of(b.base(BrushSetting::Radius), m)
            &&& s.dabs_per_actual_radius == last.get(BrushSetting::DabsPerActualRadius)
            &&& s.dabs_per_basic_radius == last.get(BrushSetting::DabsPerBasicRadius)
            &&& s.dabs_per_second == last.get(BrushSetting::DabsPerSecond)
            &&& s.prev_settings.get(BrushSetting::DabsPerActualRadius) == b.base(
                BrushSetting::DabsPerActualRadius,
            )
            &&& s.prev_settings.get(BrushSetting::DabsPerBasicRadius) == b.base(
                BrushSetting::DabsPerBasicRadius,
            )
            &&& s.prev_settings.get(BrushSetting::DabsPerSecond) == b.base(
                BrushSetting::DabsPerSecond,
            )
            &&& s.actual_elliptical_ratio == b.base(BrushSetting::EllipticalDabRatio)
        }),
{
    let step = next_step(run, goal);
    let r = moved(run, goal, step);
    let s = entered(state, goal, r.pressure, step.frac);
    let inputs = step_inputs(b, s, r, goal, m);
    lemma_unmapped(b, inputs, BrushSetting::Radius);
    lemma_unmapped(b, inputs, BrushSetting::DabsPerActualRadius);
    lemma_unmapped(b, inputs, BrushSetting::DabsPerBasicRadius);
    lemma_unmapped(b, inputs, BrushSetting::DabsPerSecond);
    lemma_unmapped(b, inputs, BrushSetting::EllipticalDabRatio);
}

/// An even brush stays settled.
proof fn lemma_stays_settled<S: DabSurface>(
    b: BrushView,
    c: Scene<S::Shown>,
    goal: Goal,
    m: Answers,
)
    requires
        even(b),
        settled(b, c.state, m),
        due(c.run),
    ensures
        ({
            let next = after_step::<S>(b, c, goal, m);
            let zero = Single { bits: 0 };
            let radius = radius_of(b.base(BrushSetting::Radius), m);
            let h = m.hypot(goal.x.minus(next.run.x), goal.y.minus(next.run.y));
            &&& settled(b, next.state, m)
            &&& next.run.dabs_todo == h.over(radius).times(
                b.base(BrushSetting::DabsPerActualRadius),
            ).plus(h.over(radius).times(zero)).plus(next.run.dtime_left.narrow().times(zero))
        }),
{
    let (state, run) = stepped(b, c.state, c.run, goal, m);
    let d = Scene { state, run, ..c };
    lemma_stepped_frame(b, c.state, c.run, goal, m);
    lemma_dab_frame::<S>(b, d, goal, m);
}

/// Whether the answers for a hypotenuse of sides of up to 2^202 units are
/// numbers without a sign of up to 2^204.
pub open spec fn hypot_in_range(m: Answers) -> bool {
    forall|dx: Single, dy: Single|
        dx.finite() && dy.finite() && -pow2(202) <= dx.value() <= pow2(202) && -pow2(202)
            <= dy.value() <= pow2(202) ==> (#[trigger] m.hypot(dx, dy)).finite() && !m.hypot(
            dx,
            dy,
        ).negative() && m.hypot(dx, dy).value() <= pow2(204)
}

/// A way of up to 2^204 units in radii, times a density, is a number.
proof fn lemma_count_is_finite(h: Single, p: Pace)
    requires
        p.wf(),
        h.finite(),
        !h.negative(),
        h.value() <= pow2(204),
    ensures
        h.over(p.radius).finite(),
        h.over(p.radius).times(p.density).finite(),
        !h.over(p.radius).negative(),
        !h.over(p.radius).times(p.density).negative(),
{
    let q = h.over(p.radius);
    let (r, k) = (p.radius.value(), p.density.value());
    lemma_one();
    lemma_pow2_pos(140);
    lemma_no_units(p.radius);
    lemma_pow2_adds(204, 149);
    lemma_pow2_adds(214, 140);
    lemma_pow2_strictly_increases(353, 354);
    lemma_mul_inequality(h.value(), pow2(204) as int, pow2(149) as int);
    lemma_mul_inequality(pow2(140) as int, r, pow2(214) as int);
    lemma_mul_is_commutative(r, pow2(214) as int);
    lemma_mul_is_commutative(pow2(140) as int, pow2(214) as int);
    assert(h.value() * pow2(149) < pow2(214) * r);
    lemma_over_near(h, p.radius, 214);
    lemma_nearest_below(h, p.radius);
    lemma_pow2_adds(16, 149);
    lemma_pow2_adds(214, 165);
    lemma_pow2_adds(232, 149);
    lemma_pow2_strictly_increases(379, 381);
    assert(pow2(16) == 0x1_0000) by {
        lemma2_to64();
    }
    lemma_pow2_pos(214);
    lemma_mul_inequality(q.value(), pow2(214) as int, k);
    lemma_mul_inequality(k, pow2(165) as int, pow2(214) as int);
    lemma_mul_is_commutative(k, pow2(214) as int);
    lemma_mul_is_commutative(pow2(165) as int, pow2(214) as int);
    assert(q.value() * k < pow2(232) * pow2(149));
    lemma_times_near(q, p.density, 232);
    assert(!q.negative()) by {
        reveal(Single::over_spec);
    }
    assert(!q.times(p.density).negative()) by {
        reveal(Single::times_spec);
    }
}

/// The way between two places in the range.
proof fn lemma_way_in_range(x: Single, g: Single, k: nat)
    requires
        x.finite(),
        g.finite(),
        149 <= k <= 200,
        -pow2(k) <= x.value() <= pow2(k),
        -pow2(k) <= g.value() <= pow2(k),
    ensures
        g.minus(x).finite(),
        -pow2(202) <= g.minus(x).value() <= pow2(202),
{
    lemma_negate(x);
    lemma_pow2_unfold(k + 1);
    lemma_pow2_unfold(k + 2);
    lemma_pow2_pos(k);
    lemma_plus_near(g, x.negate(), k + 2);
    lemma_pow2_strictly_increases((k - 22) as nat, k);
    if k < 200 {
        lemma_pow2_strictly_increases(k + 2, 202);
    }
}

/// What the answer for a hypotenuse counts to.
proof fn lemma_plain_count(h: Single, dt: Single, p: Pace)
    requires
        p.wf(),
        h.finite(),
        !h.negative(),
        h.value() <= pow2(204),
        dt.finite(),
    ensures
        ({
            let zero = Single { bits: 0 };
            let q = h.over(p.radius);
            let a = q.times(p.density);
            &&& q.finite()
            &&& a.finite()
            &&& !a.negative()
            &&& a.plus(q.times(zero)).plus(dt.times(zero)) == a
        }),
{
    let zero = Single { bits: 0 };
    let q = h.over(p.radius);
    let a = q.times(p.density);
    lemma_count_is_finite(h, p);
    law_times_nothing(zero, q);
    law_times_commutes(zero, q);
    law_times_nothing(zero, dt);
    law_times_commutes(zero, dt);
    lemma_plus_zero(a, q.times(zero));
    lemma_plus_zero(a, dt.times(zero));
}

/// A dab that is due where none was due before is a whole one.
proof fn lemma_whole_dab(run: Run, goal: Goal)
    requires
        run.dabs_moved == (Single { bits: 0 }),
        run.dabs_todo.finite(),
        !run.dabs_todo.negative(),
        due(run),
    ensures
        0 < run.dabs_todo.value(),
        next_step(run, goal).ddab.value() <= run.dabs_todo.value(),
{
    let zero = Single { bits: 0 };
    lemma_one();
    lemma_plus_commutes(zero, run.dabs_todo);
    lemma_plus_zero(run.dabs_todo, zero);
}

/// The dabs that are left after a dab are not out of bounds.
proof fn lemma_next_bound(
    run: Run,
    goal: Goal,
    to_x: Single,
    to_y: Single,
    f: Single,
    m: Answers,
    p: Pace,
)
    requires
        p.wf(),
        hypot_is_length(m),
        p.covers(run.x) && p.covers(run.y) && p.covers(goal.x) && p.covers(goal.y),
        p.covers(to_x) && p.covers(to_y),
        f.finite(),
        0 <= f.value() <= pow2(149),
        to_x == run.x.plus(f.times(goal.x.minus(run.x))),
        to_y == run.y.plus(f.times(goal.y.minus(run.y))),
        ({
            let h = m.hypot(goal.x.minus(run.x), goal.y.minus(run.y));
            let h2 = m.hypot(goal.x.minus(to_x), goal.y.minus(to_y));
            &&& h.finite() && !h.negative() && h.over(p.radius).finite()
            &&& h.over(p.radius).times(p.density).finite()
            &&& h.over(p.radius).times(p.density).value() <= 0x1_0000 * p.slack
            &&& h2.finite() && !h2.negative() && h2.over(p.radius).finite()
            &&& h2.over(p.radius).times(p.density).finite()
        }),
    ensures
        m.hypot(goal.x.minus(to_x), goal.y.minus(to_y)).over(p.radius).times(p.density).value()
            <= 0x2_0000 * p.slack,
{
    let u = pow2(149) as int;
    let (dx, dy) = (goal.x.minus(run.x), goal.y.minus(run.y));
    let (fx, fy) = (goal.x.minus(to_x), goal.y.minus(to_y));
    let h = m.hypot(dx, dy);
    let h2 = m.hypot(fx, fy);
    lemma_one();
    lemma_pow2_pos(140);
    lemma_coordinate(run.x, goal.x, f, p.k);
    lemma_coordinate(run.y, goal.y, f, p.k);
    let q = pow2((p.k - 20) as nat) as int;
    lemma_pow2_pos((p.k - 20) as nat);
    assert(off(f, dx, fx) <= u * q && off(f, dy, fy) <= u * q);
    lemma_counted(h, p.radius, p.density);
    lemma_counted(h2, p.radius, p.density);
    assert(pow2(130) >= 0x400_0000_0000) by {
        lemma_pow2_strictly_increases(42, 130);
        lemma2_to64_rest();
    }
    lemma_left_at_most(
        u,
        p.radius.value(),
        p.density.value(),
        f.value(),
        h.value(),
        h.over(p.radius).times(p.density).value(),
        h2.value(),
        h2.over(p.radius).times(p.density).value(),
        q,
        p.slack,
    );
}

/// The pace of an even brush.
pub open spec fn pace_of(b: BrushView, m: Answers, k: nat, slack: int) -> Pace {
    Pace {
        radius: radius_of(b.base(BrushSetting::Radius), m),
        density: b.base(BrushSetting::DabsPerActualRadius),
        k,
        slack,
    }
}

/// A run keeps its pace over a dab.
proof fn lemma_run_paced(run: Run, next: Run, goal: Goal, m: Answers, p: Pace)
    requires
        p.wf(),
        p.aims(goal),
        hypot_is_length(m),
        hypot_in_range(m),
        due(run),
        paced(run, goal, m, p),
        run.dabs_todo.value() <= 0x1_0000 * p.slack,
        next.dabs_moved == (Single { bits: 0 }),
        ({
            let zero = Single { bits: 0 };
            let f = next_step(run, goal).frac;
            let h = m.hypot(goal.x.minus(next.x), goal.y.minus(next.y));
            &&& next.x == run.x.plus(f.times(goal.x.minus(run.x)))
            &&& next.y == run.y.plus(f.times(goal.y.minus(run.y)))
            &&& next.dtime_left.narrow().finite()
            &&& next.dabs_todo == h.over(p.radius).times(p.density).plus(
                h.over(p.radius).times(zero),
            ).plus(next.dtime_left.narrow().times(zero))
        }),
    ensures
        paced(next, goal, m, p),
{
    let step = next_step(run, goal);
    let f = step.frac;
    lemma_one();
    lemma_pow2_pos(p.k);
    lemma_part_of_dab(run.dabs_moved, step.ddab, run.dabs_todo);
    lemma_stays_covered(run.x, goal.x, f, p.k);
    lemma_stays_covered(run.y, goal.y, f, p.k);
    lemma_way_in_range(next.x, goal.x, p.k);
    lemma_way_in_range(next.y, goal.y, p.k);
    let h = m.hypot(goal.x.minus(next.x), goal.y.minus(next.y));
    lemma_plain_count(h, next.dtime_left.narrow(), p);
    lemma_next_bound(run, goal, next.x, next.y, f, m, p);
    if due(next) {
        lemma_whole_dab(next, goal);
    }
}

/// An even brush keeps its pace over a dab.
proof fn lemma_next_paced<S: DabSurface>(
    b: BrushView,
    c: Scene<S::Shown>,
    goal: Goal,
    m: Answers,
    k: nat,
    slack: int,
)
    requires
        pace_of(b, m, k, slack).wf(),
        pace_of(b, m, k, slack).aims(goal),
        even(b),
        settled(b, c.state, m),
        hypot_is_length(m),
        hypot_in_range(m),
        due(c.run),
        paced(c.run, goal, m, pace_of(b, m, k, slack)),
        c.run.dabs_todo.value() <= 0x1_0000 * slack,
        after_step::<S>(b, c, goal, m).run.dtime_left.narrow().finite(),
    ensures
        paced(after_step::<S>(b, c, goal, m).run, goal, m, pace_of(b, m, k, slack)),
        settled(b, after_step::<S>(b, c, goal, m).state, m),
{
    let next = after_step::<S>(b, c, goal, m);
    lemma_step_frame::<S>(b, c, goal, m);
    lemma_stays_settled::<S>(b, c, goal, m);
    lemma_run_paced(c.run, next.run, goal, m, pace_of(b, m, k, slack));
}

/// Whether the time that is left is a number at every dab of up to `limit`.
pub open spec fn in_time<S: DabSurface>(
    b: BrushView,
    c: Scene<S::Shown>,
    goal: Goal,
    m: Answers,
    limit: nat,
) -> bool
    decreases limit,
{
    limit > 0 && due(c.run) ==> {
        let next = after_step::<S>(b, c, goal, m);
        next.run.dtime_left.narrow().finite() && in_time::<S>(b, next, goal, m, (limit - 1) as nat)
    }
}

/// An even brush keeps its pace from a place where it has it to the goal.
pub proof fn law_even_brush_keeps_pace<S: DabSurface>(
    b: BrushView,
    c: Scene<S::Shown>,
    goal: Goal,
    m: Answers,
    limit: nat,
    k: nat,
    slack: int,
)
    requires
        even(b),
        settled(b, c.state, m),
        hypot_is_length(m),
        hypot_in_range(m),
        in_time::<S>(b, c, goal, m, limit),
        pace_of(b, m, k, slack).wf(),
        2 * slack <= pow2(149),
        pace_of(b, m, k, slack).aims(goal),
        paced(c.run, goal, m, pace_of(b, m, k, slack)),
        backlog(c.run) <= 0x1_0000 * slack,
    ensures
        keeps_pace::<S>(b, c, goal, m, limit, pace_of(b, m, k, slack)),
    decreases limit,
{
    if limit > 0 && due(c.run) {
        let next = after_step::<S>(b, c, goal, m);
        lemma_next_paced::<S>(b, c, goal, m, k, slack);
        lemma_one_dab::<S>(b, c, goal, m, pace_of(b, m, k, slack));
        law_even_brush_keeps_pace::<S>(b, next, goal, m, (limit - 1) as nat, k, slack);
    }
}

/// What a place near the middle of the range is, where a stroke goes on.
pub open spec fn rests(state: BrushState, p: Pace) -> bool {
    &&& state.actual_x.finite() && -pow2(p.k) <= 2 * state.actual_x.value() <= pow2(p.k)
    &&& state.actual_y.finite() && -pow2(p.k) <= 2 * state.actual_y.value() <= pow2(p.k)
    &&& state.dist_past_dab.finite() && 0 <= state.dist_past_dab.value() <= pow2(149)
}

/// What counting at the start of an event depends on.
proof fn lemma_start_frame<T>(
    b: BrushView,
    state: BrushState,
    shown: T,
    rng: SampleRng,
    e: Event,
    pressure: Single,
    dtime: Double,
    m: Answers,
)
    requires
        even(b),
        settled(b, state, m),
    ensures
        ({
            let c = started(b, state, shown, rng, e, pressure, dtime, m);
            let (s, goal) = aimed(b, state, e, dtime, m);
            let zero = Single { bits: 0 };
            let radius = radius_of(b.base(BrushSetting::Radius), m);
            let h = m.hypot(goal.x.minus(state.actual_x), goal.y.minus(state.actual_y));
            &&& settled(b, s, m)
            &&& settled(b, c.state, m)
            &&& s.actual_x == state.actual_x
            &&& s.actual_y == state.actual_y
            &&& s.actual_elliptical_ratio == state.actual_elliptical_ratio
            &&& c.run.x == state.actual_x
            &&& c.run.y == state.actual_y
            &&& c.run.dabs_moved == state.dist_past_dab
            &&& c.run.dabs_todo == h.over(radius).times(
                b.base(BrushSetting::DabsPerActualRadius),
            ).plus(h.over(radius).times(zero)).plus(dtime.narrow().times(zero))
        }),
{
}

/// An event of an even brush starts at its pace.
proof fn lemma_start_paced<T>(
    b: BrushView,
    state: BrushState,
    shown: T,
    rng: SampleRng,
    e: Event,
    pressure: Single,
    dtime: Double,
    m: Answers,
    k: nat,
    slack: int,
)
    requires
        even(b),
        settled(b, state, m),
        hypot_in_range(m),
        pace_of(b, m, k, slack).wf(),
        rests(state, pace_of(b, m, k, slack)),
        pace_of(b, m, k, slack).aims(aimed(b, state, e, dtime, m).1),
        dtime.narrow().finite(),
        ({
            let c = started(b, state, shown, rng, e, pressure, dtime, m);
            let goal = aimed(b, state, e, dtime, m).1;
            &&& backlog(c.run) <= 0x1_0000 * slack
            &&& due(c.run) ==> 0 < c.run.dabs_todo.value() && next_step(c.run, goal).ddab.value()
                <= c.run.dabs_todo.value()
        }),
    ensures
        ({
            let c = started(b, state, shown, rng, e, pressure, dtime, m);
            let (s, goal) = aimed(b, state, e, dtime, m);
            let (dx, dy) = (goal.x.minus(s.actual_x), goal.y.minus(s.actual_y));
            &&& paced(c.run, goal, m, pace_of(b, m, k, slack))
            &&& dx.finite() && dy.finite()
            &&& countable(b, s, dx, dy, dtime.narrow(), m)
        }),
{
    let p = pace_of(b, m, k, slack);
    let c = started(b, state, shown, rng, e, pressure, dtime, m);
    let (s, goal) = aimed(b, state, e, dtime, m);
    let zero = Single { bits: 0 };
    let dt = dtime.narrow();
    lemma_one();
    lemma_pow2_pos(k);
    lemma_pow2_pos(140);
    lemma_start_frame(b, state, shown, rng, e, pressure, dtime, m);
    lemma_way_in_range(state.actual_x, goal.x, k);
    lemma_way_in_range(state.actual_y, goal.y, k);
    let h = m.hypot(goal.x.minus(state.actual_x), goal.y.minus(state.actual_y));
    lemma_plain_count(h, dt, p);
    let q = h.over(p.radius);
    law_times_nothing(zero, q);
    law_times_commutes(zero, q);
    law_times_nothing(zero, dt);
    law_times_commutes(zero, dt);
    lemma_plus_zero(q.times(p.density), q.times(zero));
}

/// With an even brush, slower tracking makes no more dabs in an event than
/// faster tracking where fewer are due by more than rounding can make up, fewer
/// where they are fewer by a dab and that, and at most one more otherwise; and
/// it ends behind.
pub proof fn law_even_brush_makes_no_more_dabs_slower<S: DabSurface>(
    b: BrushView,
    faster: BrushView,
    state: BrushState,
    shown: S::Shown,
    rng: SampleRng,
    e: Event,
    pressure: Single,
    dtime: Double,
    m: Answers,
    limit: nat,
    k: nat,
    slack: int,
)
    requires
        even(b),
        even(faster),
        same_but_tracking(b, faster),
        settled(b, state, m),
        hypot_is_length(m),
        hypot_in_range(m),
        hypot_keeps_order(m),
        pace_of(b, m, k, slack).wf(),
        rests(state, pace_of(b, m, k, slack)),
        pace_of(b, m, k, slack).aims(aimed(faster, state, e, dtime, m).1),
        dtime.narrow().finite(),
        (Single { bits: 0 }).le(tracking_share(b, dtime, m)),
        tracking_share(b, dtime, m).le(tracking_share(faster, dtime, m)),
        tracking_share(faster, dtime, m).le(Single { bits: ONE }),
        ({
            let (_, nx, ny) = noisy(state.rng, e.x, e.y, tracking_noise(b, m));
            nx.minus(state.actual_x).finite() && ny.minus(state.actual_y).finite()
        }),
        ({
            let c = started(b, state, shown, rng, e, pressure, dtime, m);
            let goal = aimed(b, state, e, dtime, m).1;
            &&& in_time::<S>(b, c, goal, m, limit)
            &&& backlog(c.run) <= 0x1_0000 * slack
            &&& due(c.run) ==> 0 < c.run.dabs_todo.value() && next_step(c.run, goal).ddab.value()
                <= c.run.dabs_todo.value()
        }),
        ({
            let d = started(faster, state, shown, rng, e, pressure, dtime, m);
            let aim = aimed(faster, state, e, dtime, m).1;
            &&& in_time::<S>(faster, d, aim, m, limit)
            &&& backlog(d.run) <= 0x1_0000 * slack
            &&& due(d.run) ==> 0 < d.run.dabs_todo.value() && next_step(d.run, aim).ddab.value()
                <= d.run.dabs_todo.value()
            &&& 4 * slack * dabs_made::<S>(faster, d, aim, m, limit) + 2 * slack + pow2(125) <= pow2(
                149,
            )
        }),
    ensures
        ({
            let near = simulated::<S>(b, state, shown, rng, e, pressure, dtime, m).state;
            let far = simulated::<S>(faster, state, shown, rng, e, pressure, dtime, m).state;
            &&& between(state.actual_x, near.actual_x, far.actual_x)
            &&& between(state.actual_y, near.actual_y, far.actual_y)
        }),
        ({
            let c = started(b, state, shown, rng, e, pressure, dtime, m);
            let d = started(faster, state, shown, rng, e, pressure, dtime, m);
            let aim = aimed(faster, state, e, dtime, m).1;
            let n = dabs_made::<S>(b, c, aimed(b, state, e, dtime, m).1, m, limit);
            let most = dabs_made::<S>(faster, d, aim, m, limit);
            &&& c.run.dabs_todo.le(d.run.dabs_todo)
            &&& n <= most + 1
            &&& c.run.dabs_todo.value() + 4 * slack * most + pow2(125) <= d.run.dabs_todo.value()
                ==> n <= most
            &&& most < limit && c.run.dabs_todo.value() + pow2(149) + 4 * slack * (most + 1) + pow2(
                126,
            ) <= d.run.dabs_todo.value() ==> n < most
        }),
{
    let p = pace_of(b, m, k, slack);
    let (s, near) = aimed(b, state, e, dtime, m);
    let (_, far) = aimed(faster, state, e, dtime, m);
    let c = started(b, state, shown, rng, e, pressure, dtime, m);
    let d = started(faster, state, shown, rng, e, pressure, dtime, m);
    assert(b.base(BrushSetting::Radius) == faster.base(BrushSetting::Radius));
    assert(b.base(BrushSetting::DabsPerActualRadius) == faster.base(
        BrushSetting::DabsPerActualRadius,
    ));
    assert(b.base(BrushSetting::TrackingNoise) == faster.base(BrushSetting::TrackingNoise));
    assert(settled(faster, state, m));
    assert(pace_of(faster, m, k, slack) == p);
    law_slower_tracking_stays_behind(b, faster, state, e, dtime, m);
    lemma_between_in_range(state.actual_x, near.x, far.x, k);
    lemma_between_in_range(state.actual_y, near.y, far.y, k);
    lemma_start_frame(b, state, shown, rng, e, pressure, dtime, m);
    lemma_start_frame(faster, state, shown, rng, e, pressure, dtime, m);
    lemma_start_paced(b, state, shown, rng, e, pressure, dtime, m, k, slack);
    lemma_start_paced(faster, state, shown, rng, e, pressure, dtime, m, k, slack);
    let most = dabs_made::<S>(faster, d, far, m, limit);
    assert(2 * (2 * slack) * most == 4 * slack * most);
    assert(2 * (2 * slack) * (most + 1) == 4 * slack * (most + 1));
    lemma_counted_sign(b, state, e, dtime, m, p);
    assert(2 * slack <= pow2(149)) by {
        assert(4 * slack * most >= 0) by (nonlinear_arith)
            requires
                slack >= 0,
                most >= 0,
        ;
    }
    law_even_brush_keeps_pace::<S>(b, c, near, m, limit, k, slack);
    law_even_brush_keeps_pace::<S>(faster, d, far, m, limit, k, slack);
    law_kept_pace_counts_down::<S>(b, c, near, m, limit, p);
    law_kept_pace_counts_down::<S>(faster, d, far, m, limit, p);
    lemma_same_count(b, faster, s, far, dtime.narrow(), m);
    law_slower_tracking_makes_no_more_dabs::<S>(
        b,
        faster,
        state,
        shown,
        rng,
        e,
        pressure,
        dtime,
        m,
        limit,
        2 * slack,
    );
}

/// Counts are not below zero.
proof fn lemma_counted_sign(
    b: BrushView,
    state: BrushState,
    e: Event,
    dtime: Double,
    m: Answers,
    p: Pace,
)
    requires
        p.wf(),
        hypot_in_range(m),
        rests(state, p),
        p.aims(aimed(b, state, e, dtime, m).1),
    ensures
        ({
            let goal = aimed(b, state, e, dtime, m).1;
            let h = m.hypot(goal.x.minus(state.actual_x), goal.y.minus(state.actual_y));
            h.over(p.radius).times(p.density).value() >= 0
        }),
{
    let goal = aimed(b, state, e, dtime, m).1;
    lemma_pow2_pos(p.k);
    lemma_way_in_range(state.actual_x, goal.x, p.k);
    lemma_way_in_range(state.actual_y, goal.y, p.k);
    let h = m.hypot(goal.x.minus(state.actual_x), goal.y.minus(state.actual_y));
    lemma_count_is_finite(h, p);
}

/// What is between two numbers of the inner half of the range is there.
proof fn lemma_between_in_range(a: Single, v: Single, b: Single, k: nat)
    requires
        between(a, v, b),
        a.finite(),
        b.finite(),
        k <= 200,
        -pow2(k) <= 2 * a.value() <= pow2(k),
        -pow2(k) <= 2 * b.value() <= pow2(k),
    ensures
        v.finite(),
        -pow2(k) <= 2 * v.value() <= pow2(k),
{
    if !v.finite() {
        lemma_finite_or_infinite(v);
        lemma_pow2_strictly_increases(k, 277);
        lemma_pow2_pos(k);
    }
}

/// Brushes with the same base values count alike.
proof fn lemma_same_count(
    b: BrushView,
    other: BrushView,
    s: BrushState,
    goal: Goal,
    dt: Single,
    m: Answers,
)
    requires
        same_but_tracking(b, other),
        ({
            let (dx, dy) = (goal.x.minus(s.actual_x), goal.y.minus(s.actual_y));
            countable(other, s, dx, dy, dt, m)
        }),
    ensures
        ({
            let (dx, dy) = (goal.x.minus(s.actual_x), goal.y.minus(s.actual_y));
            countable(b, s, dx, dy, dt, m)
        }),
{
    assert(b.base(BrushSetting::Radius) == other.base(BrushSetting::Radius));
    assert(b.base(BrushSetting::DabsPerActualRadius) == other.base(
        BrushSetting::DabsPerActualRadius,
    ));
    assert(b.base(BrushSetting::DabsPerBasicRadius) == other.base(
        BrushSetting::DabsPerBasicRadius,
    ));
    assert(b.base(BrushSetting::DabsPerSecond) == other.base(BrushSetting::DabsPerSecond));
}

} // verus!
