//! Angles, in degrees unless said otherwise.
use crate::double::Double;
use crate::elementary::{Answers, Elementary, Narrow, Wide};
use crate::range::lemma_no_units;
use crate::rounding::lemma_magnitude_increases;
use crate::single::{lemma_magnitude_zero, Single, HALF, TWO};
use crate::surface::Turn;
use vstd::prelude::*;

verus! {

pub const QUARTER_TURN: u64 = 0x4056_8000_0000_0000;

pub const HALF_TURN: u64 = 0x4066_8000_0000_0000;

pub const FULL_TURN: u64 = 0x4076_8000_0000_0000;

/// The ratio of a circle's circumference to its diameter, and twice that.
pub const PI: u64 = 0x4009_21fb_5444_2d18;

pub const TWO_PI: u64 = 0x4019_21fb_5444_2d18;

/// 180 and 360 as singles.
pub const DEGREES_180: u32 = 0x4334_0000;

pub const DEGREES_360: u32 = 0x43b4_0000;

/// Radians to degrees.
pub open spec fn degrees(x: Single) -> Double {
    Double::widen(x).over(Double { bits: TWO_PI }).times(Double { bits: FULL_TURN })
}

pub fn degrees_c(x: Single) -> (r: Double)
    ensures
        r == degrees(x),
{
    Double::from_single(x).over(Double { bits: TWO_PI }).times(Double { bits: FULL_TURN })
}

/// Degrees to radians.
pub open spec fn radians(x: Single) -> Single {
    Double::widen(x).times(Double { bits: PI }).over(Double { bits: HALF_TURN }).narrow()
}

pub fn radians_c(x: Single) -> (r: Single)
    ensures
        r == radians(x),
{
    Double::from_single(x).times(Double { bits: PI }).over(Double { bits: HALF_TURN }).narrow()
}

/// `a` less whole multiples of `n`: only the quotient is rounded on the way.
pub open spec fn folded(a: Single, n: Single) -> Single {
    Double::widen(a).minus(Double::widen(n).times(Double::widen(a.over(n).floor()))).narrow()
}

pub fn mod_arith_c(a: Single, n: Single) -> (r: Single)
    ensures
        r == folded(a, n),
{
    Double::from_single(a).minus(
        Double::from_single(n).times(Double::from_single(a.over(n).floor())),
    ).narrow()
}

/// An angle in the half turns around zero.
pub open spec fn wrapped(a: Single) -> Single {
    folded(a.plus(Single { bits: DEGREES_180 }), Single { bits: DEGREES_360 }).minus(
        Single { bits: DEGREES_180 },
    )
}

pub fn wrap(a: Single) -> (r: Single)
    ensures
        r == wrapped(a),
{
    mod_arith_c(a.plus(Single { bits: DEGREES_180 }), Single { bits: DEGREES_360 }).minus(
        Single { bits: DEGREES_180 },
    )
}

/// The shortest way from the angle `a` to the angle `b`.
pub open spec fn shortest_turn(a: Single, b: Single) -> Single {
    let r = wrapped(b.minus(a));
    let half = Single { bits: DEGREES_180 };
    let full = Single { bits: DEGREES_360 };
    r.plus(
        if half.lt(r) {
            full.negate()
        } else if r.lt(half.negate()) {
            full
        } else {
            Single { bits: 0 }
        },
    )
}

pub fn smallest_angular_diff(a: Single, b: Single) -> (r: Single)
    ensures
        r == shortest_turn(a, b),
{
    let r = wrap(b.minus(a));
    let half = Single { bits: DEGREES_180 };
    let full = Single { bits: DEGREES_360 };
    r.plus(
        if half.lt(r) {
            full.negate()
        } else if r.lt(half.negate()) {
            full
        } else {
            Single { bits: 0 }
        },
    )
}

/// An angle in `(-180, 180]`: what lies outside is a half turn.
pub open spec fn half_turned(a: Single) -> Single {
    let half = Single { bits: DEGREES_180 };
    if a.le(half.negate()) || half.lt(a) {
        half
    } else {
        a
    }
}

fn half_turn(a: Single) -> (r: Single)
    ensures
        r == half_turned(a),
{
    let half = Single { bits: DEGREES_180 };
    if a.le(half.negate()) || half.lt(a) {
        half
    } else {
        a
    }
}

/// An angle in `[0, full)`: what lies outside is none.
pub open spec fn kept_below(a: Single, full: Single) -> Single {
    if a.lt(Single { bits: 0 }) || full.le(a) {
        Single { bits: 0 }
    } else {
        a
    }
}

fn keep_below(a: Single, full: Single) -> (r: Single)
    ensures
        r == kept_below(a, full),
{
    if a.lt(Single { bits: 0 }) || full.le(a) {
        Single { bits: 0 }
    } else {
        a
    }
}

/// The angle from the pen to a quarter turn beyond the stroke, in
/// `(-180, 180]`.
pub open spec fn attack(ascension: Single, dx: Single, dy: Single, m: Answers) -> Single {
    let target = folded(
        degrees(m.atan2(dy, dx)).plus(Double { bits: QUARTER_TURN }).narrow(),
        Single { bits: DEGREES_360 },
    );
    half_turned(shortest_turn(ascension, target))
}

pub fn attack_angle<N: Fn(Narrow) -> Single, W: Fn(Wide) -> Double>(
    ascension: Single,
    dx: Single,
    dy: Single,
    math: &Elementary<N, W>,
) -> (r: Single)
    requires
        math.wf(),
    ensures
        r == attack(ascension, dx, dy, math.answers()),
{
    let target = mod_arith_c(
        degrees_c(math.atan2(dy, dx)).plus(Double { bits: QUARTER_TURN }).narrow(),
        Single { bits: DEGREES_360 },
    );
    half_turn(smallest_angular_diff(ascension, target))
}

/// A direction without a sense, in `[0, 180)`.
pub open spec fn axis(dx: Single, dy: Single, m: Answers) -> Single {
    let half = Single { bits: DEGREES_180 };
    kept_below(
        folded(degrees(m.atan2(dy, dx)).plus(Double { bits: HALF_TURN }).narrow(), half),
        half,
    )
}

pub fn direction_input<N: Fn(Narrow) -> Single, W: Fn(Wide) -> Double>(
    dx: Single,
    dy: Single,
    math: &Elementary<N, W>,
) -> (r: Single)
    requires
        math.wf(),
    ensures
        r == axis(dx, dy, math.answers()),
{
    let half = Single { bits: DEGREES_180 };
    keep_below(
        mod_arith_c(degrees_c(math.atan2(dy, dx)).plus(Double { bits: HALF_TURN }).narrow(), half),
        half,
    )
}

/// A direction, in `[0, 360)`.
pub open spec fn heading(dx: Single, dy: Single, m: Answers) -> Single {
    let full = Single { bits: DEGREES_360 };
    kept_below(degrees(m.atan2(dy, dx)).plus(Double { bits: FULL_TURN }).narrow().rem(full), full)
}

pub fn direction_angle<N: Fn(Narrow) -> Single, W: Fn(Wide) -> Double>(
    dx: Single,
    dy: Single,
    math: &Elementary<N, W>,
) -> (r: Single)
    requires
        math.wf(),
    ensures
        r == heading(dx, dy, math.answers()),
{
    let full = Single { bits: DEGREES_360 };
    keep_below(
        degrees_c(math.atan2(dy, dx)).plus(Double { bits: FULL_TURN }).narrow().rem(full),
        full,
    )
}

/// The cosine and sine of an angle in degrees.
pub open spec fn turned(angle: Single, m: Answers) -> Turn {
    let a = Double::widen(
        angle.over(Single { bits: DEGREES_360 }).times(Single { bits: TWO }),
    ).times(Double { bits: PI }).narrow();
    Turn { cs: m.cos(a), sn: m.sin(a) }
}

pub fn turn_of<N: Fn(Narrow) -> Single, W: Fn(Wide) -> Double>(
    angle: Single,
    math: &Elementary<N, W>,
) -> (r: Turn)
    requires
        math.wf(),
    ensures
        r == turned(angle, math.answers()),
{
    let a = Double::from_single(
        angle.over(Single { bits: DEGREES_360 }).times(Single { bits: TWO }),
    ).times(Double { bits: PI }).narrow();
    Turn { cs: math.cos(a), sn: math.sin(a) }
}

/// 0.015 and 45.
pub const SPEED_SLOPE: u32 = 0x3c75_c28f;

pub const SPEED_MIDDLE: u32 = 0x4234_0000;

/// A speed on the logarithmic scale of `gamma`, placed so that the speed 45
/// maps to one half with a slope of 0.015.
pub open spec fn speed_value(speed: Single, gamma_log: Single, m: Answers) -> Single {
    let gamma = m.exp(gamma_log);
    let middle = (Single { bits: SPEED_MIDDLE }).plus(gamma);
    let scale = (Single { bits: SPEED_SLOPE }).times(middle);
    let offset = (Single { bits: HALF }).minus(
        scale.times(m.wide_ln(Double::widen(middle)).narrow()),
    );
    m.wide_ln(Double::widen(gamma.plus(speed))).times(Double::widen(scale)).plus(
        Double::widen(offset),
    ).narrow()
}

pub fn speed_input<N: Fn(Narrow) -> Single, W: Fn(Wide) -> Double>(
    speed: Single,
    gamma_log: Single,
    math: &Elementary<N, W>,
) -> (r: Single)
    requires
        math.wf(),
    ensures
        r == speed_value(speed, gamma_log, math.answers()),
{
    let gamma = math.exp(gamma_log);
    let middle = (Single { bits: SPEED_MIDDLE }).plus(gamma);
    let scale = (Single { bits: SPEED_SLOPE }).times(middle);
    let offset = (Single { bits: HALF }).minus(
        scale.times(math.wide_ln(Double::from_single(middle)).narrow()),
    );
    math.wide_ln(Double::from_single(gamma.plus(speed))).times(
        Double::from_single(scale),
    ).plus(Double::from_single(offset)).narrow()
}

/// Wherever the angles are numbers at all, an axis lies in `[0, 180)`, a heading
/// in `[0, 360)` and the attack in `(-180, 180]`.
pub proof fn law_directions_are_in_range(ascension: Single, dx: Single, dy: Single, m: Answers)
    ensures
        ({
            let zero = Single { bits: 0 };
            let half = Single { bits: DEGREES_180 };
            let full = Single { bits: DEGREES_360 };
            let (a, h, t) = (axis(dx, dy, m), heading(dx, dy, m), attack(ascension, dx, dy, m));
            &&& !a.nan() ==> zero.le(a) && a.lt(half)
            &&& !h.nan() ==> zero.le(h) && h.lt(full)
            &&& !t.nan() ==> half.negate().lt(t) && t.le(half)
        }),
{
    let half = Single { bits: DEGREES_180 };
    lemma_magnitude_zero();
    lemma_no_units(half);
    lemma_magnitude_increases(0, DEGREES_180 as nat, 24);
    lemma_magnitude_increases(0, DEGREES_360 as nat, 24);
    assert(half.value() > 0);
}

} // verus!
