//! The time of a step, and the time that is left.
//!
//! Singles are in units of 2^-149, doubles in units of 2^-1074.
use crate::brush::BrushView;
use crate::dab_surface::DabSurface;
use crate::double::{Double, WIDE_INFINITY};
use crate::dynamics::{due, next_step, Goal, Run};
use crate::elementary::Answers;
use crate::means::{proper, size};
use crate::range::{lemma_nearest_relative, lemma_one};
use crate::rounding::{
    code, lemma_code_error, lemma_magnitude_increases, lemma_short_is_exact, magnitude,
};
use crate::single::Single;
use crate::stroke::{after_step, Scene};
use vstd::arithmetic::power2::*;
use vstd::prelude::*;

verus! {

/// The magnitude that the code of infinity would stand for among doubles.
proof fn lemma_wide_infinity()
    ensures
        magnitude(WIDE_INFINITY as nat, 53) == pow2(2098),
        pow2(52) == 0x10_0000_0000_0000,
{
    assert(pow2(52) == 0x10_0000_0000_0000) by {
        lemma2_to64_rest();
    }
    assert(WIDE_INFINITY as nat / 0x10_0000_0000_0000 == 2047 && WIDE_INFINITY as nat
        % 0x10_0000_0000_0000 == 0);
    lemma_pow2_adds(52, 2046);
}

/// A single is its own value among doubles.
pub proof fn lemma_widen_exact(s: Single)
    requires
        s.finite(),
    ensures
        Double::widen(s).finite(),
        Double::widen(s).value() == s.value() * pow2(925),
        Double::widen(s).negative() == s.negative(),
{
    reveal(Double::widen);
    let m = s.mag();
    let e = m / 0x80_0000;
    assert(pow2(23) == 0x80_0000 && pow2(24) == 0x100_0000 && pow2(0) == 1) by {
        lemma2_to64();
    }
    let (x, k): (nat, nat) = if e == 0 {
        (m, 0)
    } else {
        ((m % 0x80_0000 + 0x80_0000) as nat, (e - 1) as nat)
    };
    assert(s.units() == x * pow2(k)) by {
        assert(m * 1 == m);
    }
    lemma_pow2_adds(k, 925);
    let n = s.units() * pow2(925);
    assert(n == x * pow2(k + 925)) by (nonlinear_arith)
        requires
            n == (x * pow2(k)) * pow2(925),
            pow2(k + 925) == pow2(k) * pow2(925),
    ;
    assert(pow2(53) == 0x20_0000_0000_0000) by {
        lemma2_to64_rest();
    }
    lemma_short_is_exact(x, k + 925, 53);
    let c = code(n, 1, 53);
    assert(magnitude(c, 53) == n);
    lemma_wide_infinity();
    lemma_pow2_adds(24, k + 925);
    lemma_pow2_pos(k + 925);
    assert(n < pow2(24 + (k + 925))) by (nonlinear_arith)
        requires
            n == x * pow2(k + 925),
            x < pow2(24),
            pow2(k + 925) > 0,
            pow2(24 + (k + 925)) == pow2(24) * pow2(k + 925),
    ;
    lemma_pow2_strictly_increases(24 + (k + 925), 2098);
    if c >= WIDE_INFINITY {
        if c > WIDE_INFINITY {
            lemma_magnitude_increases(WIDE_INFINITY as nat, c, 53);
        }
    }
    if s.negative() {
        let (a, b) = (s.units() as int, pow2(925) as int);
        assert((-a) * b == -(a * b)) by (nonlinear_arith);
    }
}

/// A finite product of doubles that are not below zero is close to the exact
/// one.
proof fn lemma_wide_times_close(a: Double, b: Double)
    requires
        a.finite(),
        b.finite(),
        !a.negative(),
        !b.negative(),
        a.times(b).finite(),
    ensures
        !a.times(b).negative(),
        0x20_0000_0000_0000 * size(pow2(1074) * a.times(b).value() - a.value() * b.value())
            <= a.value() * b.value() + 0x10_0000_0000_0000 * pow2(1074),
{
    reveal(Double::times_spec);
    let n = a.units() * b.units();
    lemma_wide_infinity();
    lemma_pow2_pos(1074);
    lemma_code_error(n, pow2(1074), 53);
    let r = a.times(b);
    let y = r.units();
    let p = pow2(1074);
    assert(pow2(1074) * r.value() == y * p) by (nonlinear_arith)
        requires
            r.value() == y,
            p == pow2(1074),
    ;
}

/// The single nearest to a double that is not below zero, where that is finite.
proof fn lemma_narrow_close(d: Double)
    requires
        d.finite(),
        !d.negative(),
        d.narrow().finite(),
    ensures
        !d.narrow().negative(),
        0x100_0000 * size(pow2(925) * d.narrow().value() - d.value()) <= d.value() + 0x80_0000
            * pow2(925),
{
    reveal(Double::narrow_spec);
    lemma_pow2_pos(925);
    lemma_nearest_relative(d.units(), pow2(925));
    let r = d.narrow();
    let (y, q) = (r.units(), pow2(925));
    assert(pow2(925) * r.value() == y * q) by (nonlinear_arith)
        requires
            r.value() == y,
            q == pow2(925),
    ;
}

/// The time of a step is the part of the time that is left which is the part of
/// the way that the step goes.
pub proof fn law_step_takes_its_part_of_the_time(run: Run, goal: Goal)
    requires
        proper(next_step(run, goal).frac),
        !next_step(run, goal).frac.negative(),
        run.dtime_left.finite(),
        !run.dtime_left.negative(),
        Double::widen(next_step(run, goal).frac).times(run.dtime_left).finite(),
        next_step(run, goal).dtime.finite(),
    ensures
        ({
            let step = next_step(run, goal);
            let p = pow2(1074) as int;
            let exact = step.frac.value() * run.dtime_left.value();
            &&& !step.dtime.negative()
            &&& 0x40_0000 * size(p * step.dtime.value() - exact) <= exact + 0x80_0000 * p
            &&& step.dtime.value() > 0 ==> step.time == step.dtime
            &&& step.dtime.value() == 0 ==> step.time == (Single { bits: 0x3a83_126f })
        }),
{
    let step = next_step(run, goal);
    let f = step.frac;
    let w = Double::widen(f);
    let d = run.dtime_left;
    let x = w.times(d);
    lemma_one();
    lemma_widen_exact(f);
    lemma_wide_times_close(w, d);
    lemma_narrow_close(x);
    lemma_pow2_adds(149, 925);
    lemma_pow2_pos(149);
    lemma_pow2_pos(925);
    let (u, q, p) = (pow2(149) as int, pow2(925) as int, pow2(1074) as int);
    assert(p == u * q);
    let (fv, dv, xv, t) = (f.value(), d.value(), x.value(), step.dtime.value());
    let wd = w.value() * dv;
    let fd = fv * dv;
    assert(wd == q * fd) by (nonlinear_arith)
        requires
            wd == (fv * q) * dv,
            fd == fv * dv,
    ;
    assert(fd >= 0) by (nonlinear_arith)
        requires
            fd == fv * dv,
            fv >= 0,
            dv >= 0,
    ;
    // u x is close to f d.
    let a = u * xv - fd;
    assert(p * xv - wd == q * a) by (nonlinear_arith)
        requires
            p == u * q,
            wd == q * fd,
            a == u * xv - fd,
    ;
    assert(size(q * a) == q * size(a)) by {
        assert(q * a < 0 <==> a < 0) by (nonlinear_arith)
            requires
                q > 0,
        ;
        assert(q * (-a) == -(q * a)) by (nonlinear_arith);
    }
    assert(0x20_0000_0000_0000 * size(a) <= fd + 0x10_0000_0000_0000 * u) by (nonlinear_arith)
        requires
            0x20_0000_0000_0000 * (q * size(a)) <= q * fd + 0x10_0000_0000_0000 * p,
            p == u * q,
            q > 0,
    ;
    // And p t is close to u x.
    let b = q * t - xv;
    assert(p * t - u * xv == u * b) by (nonlinear_arith)
        requires
            p == u * q,
            b == q * t - xv,
    ;
    assert(size(u * b) == u * size(b)) by {
        assert(u * b < 0 <==> b < 0) by (nonlinear_arith)
            requires
                u > 0,
        ;
        assert(u * (-b) == -(u * b)) by (nonlinear_arith);
    }
    let ux = u * xv;
    assert(0x100_0000 * (u * size(b)) <= ux + 0x80_0000 * p) by (nonlinear_arith)
        requires
            0x100_0000 * size(b) <= xv + 0x80_0000 * q,
            ux == u * xv,
            p == u * q,
            u > 0,
    ;
    assert(u <= p) by (nonlinear_arith)
        requires
            p == u * q,
            q >= 1,
            u > 0,
    ;
    lemma_magnitude_of_zero(step.dtime);
}

proof fn lemma_magnitude_of_zero(s: Single)
    ensures
        s.value() <= 0 && !s.negative() ==> s.value() == 0,
        (Single { bits: 0 }).value() == 0,
{
    lemma_one();
}

/// The time that is left after a dab is what was left, less the time of the
/// step, rounded once.
pub proof fn law_time_that_is_left<S: DabSurface>(
    b: BrushView,
    c: Scene<S::Shown>,
    goal: Goal,
    m: Answers,
)
    requires
        due(c.run),
        c.run.dtime_left.finite(),
        next_step(c.run, goal).dtime.finite(),
        after_step::<S>(b, c, goal, m).run.dtime_left.finite(),
    ensures
        ({
            let exact = c.run.dtime_left.value() - next_step(c.run, goal).dtime.value() * pow2(925);
            let left = after_step::<S>(b, c, goal, m).run.dtime_left.value();
            0x20_0000_0000_0000 * size(left - exact) <= size(exact) + 0x10_0000_0000_0000
        }),
{
    let t = next_step(c.run, goal).dtime;
    lemma_widen_exact(t);
    lemma_wide_minus_close(c.run.dtime_left, Double::widen(t));
    lemma_left_frame::<S>(b, c, goal, m);
}

proof fn lemma_left_frame<S: DabSurface>(b: BrushView, c: Scene<S::Shown>, goal: Goal, m: Answers)
    requires
        due(c.run),
    ensures
        after_step::<S>(b, c, goal, m).run.dtime_left == c.run.dtime_left.minus(
            Double::widen(next_step(c.run, goal).dtime),
        ),
{
}

/// A finite difference of doubles is close to the exact one.
proof fn lemma_wide_minus_close(d: Double, w: Double)
    requires
        d.finite(),
        w.finite(),
        d.minus(w).finite(),
    ensures
        ({
            let v = d.value() - w.value();
            0x20_0000_0000_0000 * size(d.minus(w).value() - v) <= size(v) + 0x10_0000_0000_0000
        }),
{
    let v = d.value() - w.value();
    let less = w.negate();
    lemma_wide_infinity();
    assert(less.value() == -w.value() && less.finite());
    reveal(Double::plus_spec);
    if v != 0 {
        lemma_code_error(size(v) as nat, 1, 53);
    } else {
        assert(magnitude(0, 53) == 0) by {
            lemma_pow2_pos(52);
        }
    }
}

} // verus!
