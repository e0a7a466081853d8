//! How many dabs an event makes, and that slower tracking makes no more.
use crate::brush::BrushView;
use crate::dab::{between, lemma_within_finite};
use crate::dab_surface::DabSurface;
use crate::double::Double;
use crate::dynamics::{due, Goal, Run};
use crate::elementary::Answers;
use crate::rand::SampleRng;
use crate::range::{
    lemma_finite_or_infinite, lemma_infinite_term, lemma_known, lemma_nan_terms, lemma_negate,
    lemma_one, lemma_plus_value, lemma_rounded_exact, lemma_rounded_monotone,
};
use crate::rounding::lemma_magnitude_increases;
use crate::setting::BrushSetting;
use crate::single::{lemma_infinity_units, Single, INFINITY, ONE};
use crate::state::BrushState;
use crate::stroke::{
    after_step, aimed, countable, counted, dabs_due, launched, law_shorter_way_needs_no_more_dabs,
    law_slower_tracking_stays_behind, noisy, simulated, tracking_noise, tracking_share, Event,
    Scene,
};
use vstd::arithmetic::power2::*;
use vstd::prelude::*;

verus! {

/// The dabs that a brush makes on its way to the goal, in up to `limit` steps.
pub open spec fn dabs_made<S: DabSurface>(
    b: BrushView,
    c: Scene<S::Shown>,
    goal: Goal,
    m: Answers,
    limit: nat,
) -> nat
    decreases limit,
{
    if limit == 0 || !due(c.run) {
        0
    } else {
        1 + dabs_made::<S>(b, after_step::<S>(b, c, goal, m), goal, m, (limit - 1) as nat)
    }
}

/// The part of a dab that was due before and the dabs that are due until the
/// goal, in units of 2^-149.
pub open spec fn backlog(run: Run) -> int {
    run.dabs_moved.value() + run.dabs_todo.value()
}

/// Whether every dab of up to `limit` takes one dab from those that are due,
/// within `slack` units, so that the goal is reached by counting down.  The
/// dabs are counted anew after each dab, so that a brush that changes its size
/// or its density on the way does otherwise.
pub open spec fn counts_down<S: DabSurface>(
    b: BrushView,
    c: Scene<S::Shown>,
    goal: Goal,
    m: Answers,
    limit: nat,
    slack: int,
) -> bool
    decreases limit,
{
    &&& c.run.dabs_moved.finite()
    &&& c.run.dabs_todo.finite()
    &&& limit > 0 && due(c.run) ==> {
        let next = after_step::<S>(b, c, goal, m);
        &&& backlog(c.run) - pow2(149) - slack <= backlog(next.run)
        &&& backlog(next.run) <= backlog(c.run) - pow2(149) + slack
        &&& counts_down::<S>(b, next, goal, m, (limit - 1) as nat, slack)
    }
}

/// A dab is due from one dab on; just below one the sum may be rounded up.
proof fn lemma_due(run: Run)
    requires
        run.dabs_moved.finite(),
        run.dabs_todo.finite(),
    ensures
        due(run) ==> backlog(run) > pow2(149) - pow2(125),
        !due(run) ==> backlog(run) < pow2(149),
{
    let one = Single { bits: ONE };
    let below = Single { bits: 0x3f7f_ffff };
    lemma_one();
    lemma_known(0x3f7f_ffff, 0xff_ffff, 125);
    lemma_pow2_adds(24, 125);
    lemma_pow2_pos(125);
    assert(pow2(24) == 0x100_0000) by {
        lemma2_to64();
    }
    lemma_plus_value(run.dabs_moved, run.dabs_todo);
    lemma_rounded_exact(one);
    lemma_rounded_exact(below);
    if backlog(run) >= pow2(149) {
        lemma_rounded_monotone(one.value(), backlog(run));
    }
    if backlog(run) <= below.value() {
        lemma_rounded_monotone(backlog(run), below.value());
    }
}

/// Of two brushes that count down, the one with fewer dabs due makes no more.
proof fn lemma_fewer_due<S: DabSurface>(
    b: BrushView,
    c: Scene<S::Shown>,
    goal: Goal,
    other: BrushView,
    d: Scene<S::Shown>,
    aim: Goal,
    m: Answers,
    limit: nat,
    slack: int,
)
    requires
        slack >= 0,
        counts_down::<S>(b, c, goal, m, limit, slack),
        counts_down::<S>(other, d, aim, m, limit, slack),
        backlog(c.run) + 2 * slack * dabs_made::<S>(other, d, aim, m, limit) + pow2(125)
            <= backlog(d.run),
    ensures
        dabs_made::<S>(b, c, goal, m, limit) <= dabs_made::<S>(other, d, aim, m, limit),
    decreases limit,
{
    lemma_due(c.run);
    lemma_due(d.run);
    lemma_pow2_pos(125);
    let n = dabs_made::<S>(other, d, aim, m, limit);
    assert(2 * slack * n >= 0) by (nonlinear_arith)
        requires
            slack >= 0,
            n >= 0,
    ;
    if limit > 0 && due(c.run) {
        let next = after_step::<S>(b, c, goal, m);
        let then_other = after_step::<S>(other, d, aim, m);
        let rest = dabs_made::<S>(other, then_other, aim, m, (limit - 1) as nat);
        assert(due(d.run));
        assert(n == 1 + rest);
        assert(2 * slack * n == 2 * slack * rest + 2 * slack) by (nonlinear_arith)
            requires
                n == 1 + rest,
        ;
        lemma_fewer_due::<S>(
            b,
            next,
            goal,
            other,
            then_other,
            aim,
            m,
            (limit - 1) as nat,
            slack,
        );
    }
}

/// Of two brushes that count down, the one with no more dabs due makes at most
/// one more, where counting is off by less than a dab in all.
proof fn lemma_no_more_due<S: DabSurface>(
    b: BrushView,
    c: Scene<S::Shown>,
    goal: Goal,
    other: BrushView,
    d: Scene<S::Shown>,
    aim: Goal,
    m: Answers,
    limit: nat,
    slack: int,
)
    requires
        slack >= 0,
        counts_down::<S>(b, c, goal, m, limit, slack),
        counts_down::<S>(other, d, aim, m, limit, slack),
        backlog(c.run) + 2 * slack * dabs_made::<S>(other, d, aim, m, limit) + slack + pow2(125)
            <= backlog(d.run) + pow2(149),
    ensures
        dabs_made::<S>(b, c, goal, m, limit) <= dabs_made::<S>(other, d, aim, m, limit) + 1,
{
    if limit > 0 && due(c.run) {
        let next = after_step::<S>(b, c, goal, m);
        lemma_still_down::<S>(other, d, aim, m, limit, slack);
        let n = dabs_made::<S>(other, d, aim, m, limit);
        let shorter = dabs_made::<S>(other, d, aim, m, (limit - 1) as nat);
        assert(2 * slack * shorter <= 2 * slack * n) by (nonlinear_arith)
            requires
                shorter <= n,
                slack >= 0,
        ;
        lemma_fewer_due::<S>(b, next, goal, other, d, aim, m, (limit - 1) as nat, slack);
    }
}

/// Of two brushes that count down, the one with a dab less due makes fewer.
proof fn lemma_dab_less_due<S: DabSurface>(
    b: BrushView,
    c: Scene<S::Shown>,
    goal: Goal,
    other: BrushView,
    d: Scene<S::Shown>,
    aim: Goal,
    m: Answers,
    limit: nat,
    slack: int,
)
    requires
        slack >= 0,
        backlog(c.run) >= -(slack + pow2(125)),
        counts_down::<S>(b, c, goal, m, limit, slack),
        counts_down::<S>(other, d, aim, m, limit, slack),
        dabs_made::<S>(other, d, aim, m, limit) < limit,
        backlog(c.run) + pow2(149) + 2 * slack * (dabs_made::<S>(other, d, aim, m, limit) + 1)
            + pow2(126) <= backlog(d.run),
    ensures
        dabs_made::<S>(b, c, goal, m, limit) < dabs_made::<S>(other, d, aim, m, limit),
    decreases limit,
{
    let n = dabs_made::<S>(other, d, aim, m, limit);
    lemma_due(c.run);
    lemma_due(d.run);
    lemma_pow2_pos(125);
    lemma_pow2_unfold(126);
    assert(2 * slack * (n + 1) >= 2 * slack) by (nonlinear_arith)
        requires
            slack >= 0,
            n >= 0,
    ;
    assert(due(d.run));
    if due(c.run) {
        let next = after_step::<S>(b, c, goal, m);
        let follow = after_step::<S>(other, d, aim, m);
        let rest = dabs_made::<S>(other, follow, aim, m, (limit - 1) as nat);
        assert(n == 1 + rest);
        assert(2 * slack * (n + 1) == 2 * slack * (rest + 1) + 2 * slack) by (nonlinear_arith)
            requires
                n == 1 + rest,
        ;
        lemma_dab_less_due::<S>(b, next, goal, other, follow, aim, m, (limit - 1) as nat, slack);
    }
}

/// Counting down holds for fewer steps too, and these make no more dabs.
proof fn lemma_still_down<S: DabSurface>(
    b: BrushView,
    c: Scene<S::Shown>,
    goal: Goal,
    m: Answers,
    limit: nat,
    slack: int,
)
    requires
        limit > 0,
        counts_down::<S>(b, c, goal, m, limit, slack),
    ensures
        counts_down::<S>(b, c, goal, m, (limit - 1) as nat, slack),
        dabs_made::<S>(b, c, goal, m, (limit - 1) as nat) <= dabs_made::<S>(b, c, goal, m, limit),
    decreases limit,
{
    if limit > 1 && due(c.run) {
        lemma_still_down::<S>(
            b,
            after_step::<S>(b, c, goal, m),
            goal,
            m,
            (limit - 1) as nat,
            slack,
        );
    }
}

/// Whether two brushes differ in no base value but that of slow tracking.
pub open spec fn same_but_tracking(b: BrushView, other: BrushView) -> bool {
    forall|s: BrushSetting|
        s != BrushSetting::SlowTracking ==> #[trigger] b.base(s) == other.base(s)
}

/// Whether the answers for a hypotenuse keep the order of its sides.
pub open spec fn hypot_keeps_order(m: Answers) -> bool {
    forall|dx: Single, dy: Single, fx: Single, fy: Single|
        dx.finite() && dy.finite() && fx.finite() && fy.finite() && dx.units() <= fx.units()
            && dy.units() <= fy.units() ==> #[trigger] m.hypot(dx, dy).le(
            #[trigger] m.hypot(fx, fy),
        )
}

/// The scene in which the simulation of an event starts.
pub open spec fn started<T>(
    b: BrushView,
    state: BrushState,
    shown: T,
    rng: SampleRng,
    e: Event,
    pressure: Single,
    dtime: Double,
    m: Answers,
) -> Scene<T> {
    let (s, goal) = aimed(b, state, e, dtime, m);
    counted(b, Scene { state: s, run: launched(s, pressure, dtime), shown, rng }, goal, dtime, m)
}

/// The way from a point to one on the way to another is no longer in any
/// coordinate.
proof fn lemma_way(a: Single, v: Single, w: Single)
    requires
        between(a, v, w),
        a.finite(),
        w.minus(a).finite(),
    ensures
        v.minus(a).finite(),
        v.minus(a).units() <= w.minus(a).units(),
{
    let less = a.negate();
    lemma_one();
    lemma_infinity_units();
    lemma_negate(a);
    if !w.finite() {
        if w.nan() {
            lemma_nan_terms(w, less);
        } else {
            lemma_infinite_term(w, less);
        }
    }
    lemma_below_infinity(a);
    lemma_below_infinity(w);
    if !v.finite() {
        lemma_finite_or_infinite(v);
    }
    lemma_plus_value(v, less);
    lemma_plus_value(w, less);
    lemma_rounded_exact(Single { bits: 0 });
    if a.value() <= w.value() {
        lemma_rounded_monotone(0, v.value() + less.value());
        lemma_rounded_monotone(v.value() + less.value(), w.value() + less.value());
    } else {
        lemma_rounded_monotone(v.value() + less.value(), 0);
        lemma_rounded_monotone(w.value() + less.value(), v.value() + less.value());
    }
    lemma_within_finite(v.minus(a), w.minus(a));
}

/// A finite number is of a smaller magnitude than infinity.
proof fn lemma_below_infinity(a: Single)
    requires
        a.finite(),
    ensures
        a.units() < pow2(277),
{
    lemma_infinity_units();
    lemma_magnitude_increases(a.mag(), INFINITY as nat, 24);
}

/// Slower tracking follows less of the way, and for its shorter way needs no
/// more dabs.  It makes no more dabs than faster tracking where fewer are due
/// by more than counting can be off, fewer where they are fewer by a dab and
/// that, and at most one more otherwise.
///
/// That holds of round dabs that both brushes count down, where counting is
/// off by less than a dab in all.
pub proof fn law_slower_tracking_makes_no_more_dabs<S: DabSurface>(
    b: BrushView,
    faster: BrushView,
    state: BrushState,
    shown: S::Shown,
    rng: SampleRng,
    e: Event,
    pressure: Single,
    dtime: Double,
    m: Answers,
    limit: nat,
    slack: int,
)
    requires
        same_but_tracking(b, faster),
        (Single { bits: 0 }).le(tracking_share(b, dtime, m)),
        tracking_share(b, dtime, m).le(tracking_share(faster, dtime, m)),
        tracking_share(faster, dtime, m).le(Single { bits: ONE }),
        state.actual_x.finite(),
        state.actual_y.finite(),
        ({
            let (_, nx, ny) = noisy(state.rng, e.x, e.y, tracking_noise(b, m));
            nx.minus(state.actual_x).finite() && ny.minus(state.actual_y).finite()
        }),
        !(Single { bits: ONE }).lt(state.actual_elliptical_ratio),
        hypot_keeps_order(m),
        ({
            let (s, near) = aimed(b, state, e, dtime, m);
            let (_, far) = aimed(faster, state, e, dtime, m);
            let dt = dtime.narrow();
            &&& far.x.minus(s.actual_x).finite() && far.y.minus(s.actual_y).finite()
            &&& countable(b, s, near.x.minus(s.actual_x), near.y.minus(s.actual_y), dt, m)
            &&& countable(b, s, far.x.minus(s.actual_x), far.y.minus(s.actual_y), dt, m)
        }),
        ({
            let c = started(b, state, shown, rng, e, pressure, dtime, m);
            let d = started(faster, state, shown, rng, e, pressure, dtime, m);
            let aim = aimed(faster, state, e, dtime, m).1;
            &&& slack >= 0
            &&& counts_down::<S>(b, c, aimed(b, state, e, dtime, m).1, m, limit, slack)
            &&& counts_down::<S>(faster, d, aim, m, limit, slack)
            &&& 2 * slack * dabs_made::<S>(faster, d, aim, m, limit) + slack + pow2(125) <= pow2(
                149,
            )
        }),
    ensures
        ({
            let near = simulated::<S>(b, state, shown, rng, e, pressure, dtime, m).state;
            let far = simulated::<S>(faster, state, shown, rng, e, pressure, dtime, m).state;
            &&& between(state.actual_x, near.actual_x, far.actual_x)
            &&& between(state.actual_y, near.actual_y, far.actual_y)
        }),
        ({
            let c = started(b, state, shown, rng, e, pressure, dtime, m);
            let d = started(faster, state, shown, rng, e, pressure, dtime, m);
            let aim = aimed(faster, state, e, dtime, m).1;
            let n = dabs_made::<S>(b, c, aimed(b, state, e, dtime, m).1, m, limit);
            let most = dabs_made::<S>(faster, d, aim, m, limit);
            &&& c.run.dabs_todo.le(d.run.dabs_todo)
            &&& n <= most + 1
            &&& c.run.dabs_todo.value() + 2 * slack * most + pow2(125) <= d.run.dabs_todo.value()
                ==> n <= most
            &&& most < limit && backlog(c.run) >= 0 && c.run.dabs_todo.value() + pow2(149) + 2
                * slack * (most + 1) + pow2(126) <= d.run.dabs_todo.value() ==> n < most
        }),
{
    let (s, near) = aimed(b, state, e, dtime, m);
    let (s2, far) = aimed(faster, state, e, dtime, m);
    let dt = dtime.narrow();
    assert(b.base(BrushSetting::Radius) == faster.base(BrushSetting::Radius));
    assert(b.base(BrushSetting::TrackingNoise) == faster.base(BrushSetting::TrackingNoise));
    assert(b.base(BrushSetting::DabsPerActualRadius) == faster.base(
        BrushSetting::DabsPerActualRadius,
    ));
    assert(b.base(BrushSetting::DabsPerBasicRadius) == faster.base(
        BrushSetting::DabsPerBasicRadius,
    ));
    assert(b.base(BrushSetting::DabsPerSecond) == faster.base(BrushSetting::DabsPerSecond));
    assert(s2 == s);
    law_slower_tracking_stays_behind(b, faster, state, e, dtime, m);
    lemma_way(s.actual_x, near.x, far.x);
    lemma_way(s.actual_y, near.y, far.y);
    let (dx, dy) = (near.x.minus(s.actual_x), near.y.minus(s.actual_y));
    let (fx, fy) = (far.x.minus(s.actual_x), far.y.minus(s.actual_y));
    assert(m.hypot(dx, dy).le(m.hypot(fx, fy)));
    law_shorter_way_needs_no_more_dabs(b, s, dx, dy, fx, fy, dt, m);
    let c = started(b, state, shown, rng, e, pressure, dtime, m);
    let d = started(faster, state, shown, rng, e, pressure, dtime, m);
    assert(c.run.dabs_todo == dabs_due(b, s, dx, dy, dt, m));
    assert(d.run.dabs_todo == dabs_due(b, s, fx, fy, dt, m));
    assert(c.run.dabs_moved == d.run.dabs_moved);
    lemma_no_more_due::<S>(b, c, near, faster, d, far, m, limit, slack);
    let most = dabs_made::<S>(faster, d, far, m, limit);
    if c.run.dabs_todo.value() + 2 * slack * most + pow2(125) <= d.run.dabs_todo.value() {
        lemma_fewer_due::<S>(b, c, near, faster, d, far, m, limit, slack);
    }
    if most < limit && backlog(c.run) >= 0 && c.run.dabs_todo.value() + pow2(149) + 2 * slack * (
    most + 1) + pow2(126) <= d.run.dabs_todo.value() {
        lemma_dab_less_due::<S>(b, c, near, faster, d, far, m, limit, slack);
    }
}

} // verus!
