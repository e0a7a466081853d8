//! Colours.  The engine works in linear light; hue, saturation and value
//! appear where a brush is configured.
use crate::double::Double;
use crate::elementary::{Answers, Elementary, Narrow, Wide};
use crate::range::{
    in_unit, lemma_nearest_at_most, lemma_one, lemma_plus_value, lemma_rest_in_unit,
    lemma_rounded_exact, lemma_rounded_monotone, lemma_times_in_unit, lemma_times_non_negative,
};
use crate::rounding::lemma_code_exact;
use crate::single::{
    law_times_nothing, law_times_one, lemma_infinity_units, lemma_magnitude_zero, lemma_of_exact,
    Single, FOUR, HALF, ONE, SIX, TWO,
};
use vstd::arithmetic::div_mod::*;
use vstd::arithmetic::power2::*;
use vstd::prelude::*;

verus! {

#[derive(Clone, Copy, Debug, PartialEq, Eq, Structural)]
pub struct RgbaF32 {
    pub r: Single,
    pub g: Single,
    pub b: Single,
    pub a: Single,
}

impl RgbaF32 {
    pub open spec fn transparent_spec() -> RgbaF32 {
        RgbaF32 {
            r: Single { bits: 0 },
            g: Single { bits: 0 },
            b: Single { bits: 0 },
            a: Single { bits: 0 },
        }
    }

    /// Fully transparent black.
    #[verifier::when_used_as_spec(transparent_spec)]
    pub fn transparent() -> (c: RgbaF32)
        ensures
            c == RgbaF32::transparent_spec(),
    {
        RgbaF32 {
            r: Single { bits: 0 },
            g: Single { bits: 0 },
            b: Single { bits: 0 },
            a: Single { bits: 0 },
        }
    }

    pub fn new(r: Single, g: Single, b: Single, a: Single) -> (c: RgbaF32)
        ensures
            c == (RgbaF32 { r, g, b, a }),
    {
        RgbaF32 { r, g, b, a }
    }

    pub open spec fn held_spec(self) -> RgbaF32 {
        RgbaF32 {
            r: unit(self.r),
            g: unit(self.g),
            b: unit(self.b),
            a: unit(self.a),
        }
    }

    /// Every channel held to `[0, 1]`.
    #[verifier::when_used_as_spec(held_spec)]
    pub fn held(self) -> (c: RgbaF32)
        ensures
            c == self.held_spec(),
    {
        RgbaF32 {
            r: to_unit(self.r),
            g: to_unit(self.g),
            b: to_unit(self.b),
            a: to_unit(self.a),
        }
    }
}

impl Default for RgbaF32 {
    fn default() -> (c: RgbaF32)
        ensures
            c == RgbaF32::transparent_spec(),
    {
        RgbaF32::transparent()
    }
}

/// A number held to `[0, 1]`.
pub open spec fn unit(v: Single) -> Single {
    v.clamp_spec(Single { bits: 0 }, Single { bits: ONE })
}

pub fn to_unit(v: Single) -> (r: Single)
    ensures
        r == unit(v),
{
    v.clamp(Single { bits: 0 }, Single { bits: ONE })
}

/// The constants of the sRGB transfer functions.
pub const LINEAR_KNEE: u32 = 0x3b4d_2e1c;

pub const ENCODED_KNEE: u32 = 0x3d25_aee6;

pub const SLOPE: u32 = 0x414e_b852;

pub const GAIN: u32 = 0x3f87_0a3d;

pub const OFFSET: u32 = 0x3d61_47ae;

/// 2.4, and the single nearest to its inverse.
pub const POWER: u32 = 0x4019_999a;

pub const ROOT: u32 = 0x3ed5_5555;

/// Linear light to sRGB: linear below 0.0031308, above it
/// `1.055 * c^(1 / 2.4) - 0.055`.
pub open spec fn encoded(c: Single, m: Answers) -> Single {
    if c.le_spec(Single { bits: LINEAR_KNEE }) {
        c.times_spec(Single { bits: SLOPE })
    } else {
        (Single { bits: GAIN }).times_spec(m.pow(c, Single { bits: ROOT })).minus_spec(
            Single { bits: OFFSET },
        )
    }
}

/// sRGB to linear light: linear below 0.04045, above it
/// `((c + 0.055) / 1.055)^2.4`.
pub open spec fn decoded(c: Single, m: Answers) -> Single {
    if c.le_spec(Single { bits: ENCODED_KNEE }) {
        c.over_spec(Single { bits: SLOPE })
    } else {
        m.pow(
            c.plus_spec(Single { bits: OFFSET }).over_spec(Single { bits: GAIN }),
            Single { bits: POWER },
        )
    }
}

pub fn linear_to_srgb<N: Fn(Narrow) -> Single, W: Fn(Wide) -> Double>(
    c: Single,
    math: &Elementary<N, W>,
) -> (r: Single)
    requires
        math.wf(),
    ensures
        r == encoded(c, math.answers()),
{
    if c.le(Single { bits: LINEAR_KNEE }) {
        c.times(Single { bits: SLOPE })
    } else {
        (Single { bits: GAIN }).times(math.pow(c, Single { bits: ROOT })).minus(
            Single { bits: OFFSET },
        )
    }
}

pub fn srgb_to_linear<N: Fn(Narrow) -> Single, W: Fn(Wide) -> Double>(
    c: Single,
    math: &Elementary<N, W>,
) -> (r: Single)
    requires
        math.wf(),
    ensures
        r == decoded(c, math.answers()),
{
    if c.le(Single { bits: ENCODED_KNEE }) {
        c.over(Single { bits: SLOPE })
    } else {
        math.pow(
            c.plus(Single { bits: OFFSET }).over(Single { bits: GAIN }),
            Single { bits: POWER },
        )
    }
}

/// Hue in `[0, 1)`, saturation and value in `[0, 1]`.
#[derive(Clone, Copy, Debug, PartialEq, Eq, Structural)]
pub struct Hsv {
    pub h: Single,
    pub s: Single,
    pub v: Single,
}

/// Hue in `[0, 1)`, saturation and lightness in `[0, 1]`.
#[derive(Clone, Copy, Debug, PartialEq, Eq, Structural)]
pub struct Hsl {
    pub h: Single,
    pub s: Single,
    pub l: Single,
}

/// The sextant of a hue, the part of it that is passed, and what a channel
/// falls to, falls through and rises through there.
pub open spec fn hsv_to_rgb_spec(hsv: Hsv) -> RgbaF32 {
    let one = Single { bits: ONE };
    let h = hsv.h.rem_euclid_spec(one).times_spec(Single { bits: SIX });
    let i = h.floor_i32_spec();
    let f = h.minus_spec(Single::from_i32_spec(i));
    let p = hsv.v.times_spec(one.minus_spec(hsv.s));
    let q = hsv.v.times_spec(one.minus_spec(hsv.s.times_spec(f)));
    let t = hsv.v.times_spec(one.minus_spec(hsv.s.times_spec(one.minus_spec(f))));
    let sextant = i as int % 6;
    if sextant == 0 {
        RgbaF32 { r: hsv.v, g: t, b: p, a: one }
    } else if sextant == 1 {
        RgbaF32 { r: q, g: hsv.v, b: p, a: one }
    } else if sextant == 2 {
        RgbaF32 { r: p, g: hsv.v, b: t, a: one }
    } else if sextant == 3 {
        RgbaF32 { r: p, g: q, b: hsv.v, a: one }
    } else if sextant == 4 {
        RgbaF32 { r: t, g: p, b: hsv.v, a: one }
    } else {
        RgbaF32 { r: hsv.v, g: p, b: q, a: one }
    }
}

#[verifier::when_used_as_spec(hsv_to_rgb_spec)]
pub fn hsv_to_rgb(hsv: Hsv) -> (c: RgbaF32)
    ensures
        c == hsv_to_rgb_spec(hsv),
{
    let one = Single { bits: ONE };
    let h = hsv.h.rem_euclid(one).times(Single { bits: SIX });
    let i: i32 = h.floor_i32();
    let f = h.minus(Single::from_i32(i));
    let p = hsv.v.times(one.minus(hsv.s));
    let q = hsv.v.times(one.minus(hsv.s.times(f)));
    let t = hsv.v.times(one.minus(hsv.s.times(one.minus(f))));
    let sextant: i32 = if i >= 0 {
        i % 6
    } else {
        5 - (-1 - i) % 6
    };
    assert(sextant == i as int % 6);
    if sextant == 0 {
        RgbaF32::new(hsv.v, t, p, one)
    } else if sextant == 1 {
        RgbaF32::new(q, hsv.v, p, one)
    } else if sextant == 2 {
        RgbaF32::new(p, hsv.v, t, one)
    } else if sextant == 3 {
        RgbaF32::new(p, q, hsv.v, one)
    } else if sextant == 4 {
        RgbaF32::new(t, p, hsv.v, one)
    } else {
        RgbaF32::new(hsv.v, p, q, one)
    }
}

/// Below this spread of the channels a colour counts as grey.
pub const GREY_SPREAD: u32 = 0x38d1_b717;

/// Which sixth of the colour circle `(r, g, b)` lies in, and where in it,
/// in sixths from red; negative just before red.
pub open spec fn hue_sixths(
    r: Single,
    g: Single,
    b: Single,
    max: Single,
    spread: Single,
) -> Single {
    if r.same_spec(max) {
        g.minus_spec(b).over_spec(spread)
    } else if g.same_spec(max) {
        (Single { bits: TWO }).plus_spec(b.minus_spec(r).over_spec(spread))
    } else {
        (Single { bits: FOUR }).plus_spec(r.minus_spec(g).over_spec(spread))
    }
}

fn hue_in_sixths(r: Single, g: Single, b: Single, max: Single, spread: Single) -> (h: Single)
    ensures
        h == hue_sixths(r, g, b, max, spread),
{
    if r.same(max) {
        g.minus(b).over(spread)
    } else if g.same(max) {
        (Single { bits: TWO }).plus(b.minus(r).over(spread))
    } else {
        (Single { bits: FOUR }).plus(r.minus(g).over(spread))
    }
}

pub open spec fn rgb_to_hsv_spec(r: Single, g: Single, b: Single) -> Hsv {
    let zero = Single { bits: 0 };
    let (r, g, b) = (unit(r), unit(g), unit(b));
    let max = r.max_spec(g).max_spec(b);
    let min = r.min_spec(g).min_spec(b);
    let spread = max.minus_spec(min);
    if (Single { bits: GREY_SPREAD }).lt_spec(spread) {
        let six = Single { bits: SIX };
        let h = hue_sixths(r, g, b, max, spread);
        let wound = if h.lt_spec(zero) {
            h.plus_spec(six)
        } else {
            h
        };
        Hsv { h: wound.over_spec(six), s: spread.over_spec(max), v: max }
    } else {
        Hsv { h: zero, s: zero, v: max }
    }
}

/// Hue, saturation and value of a colour held to `[0, 1]`.
#[verifier::when_used_as_spec(rgb_to_hsv_spec)]
pub fn rgb_to_hsv(r: Single, g: Single, b: Single) -> (c: Hsv)
    ensures
        c == rgb_to_hsv_spec(r, g, b),
{
    let zero = Single { bits: 0 };
    let r = to_unit(r);
    let g = to_unit(g);
    let b = to_unit(b);
    let max = r.max(g).max(b);
    let min = r.min(g).min(b);
    let spread = max.minus(min);
    if (Single { bits: GREY_SPREAD }).lt(spread) {
        let six = Single { bits: SIX };
        let h = hue_in_sixths(r, g, b, max, spread);
        let wound = if h.lt(zero) {
            h.plus(six)
        } else {
            h
        };
        Hsv { h: wound.over(six), s: spread.over(max), v: max }
    } else {
        Hsv { h: zero, s: zero, v: max }
    }
}

pub open spec fn rgb_to_hsl_spec(r: Single, g: Single, b: Single) -> Hsl {
    let zero = Single { bits: 0 };
    let one = Single { bits: ONE };
    let two = Single { bits: TWO };
    let (r, g, b) = (unit(r), unit(g), unit(b));
    let max = r.max_spec(g).max_spec(b);
    let min = r.min_spec(g).min_spec(b);
    let l = max.plus_spec(min).over_spec(two);
    if max.same_spec(min) {
        Hsl { h: zero, s: zero, l }
    } else {
        let spread = max.minus_spec(min);
        let s = if l.le_spec(Single { bits: HALF }) {
            spread.over_spec(max.plus_spec(min))
        } else {
            spread.over_spec(two.minus_spec(max).minus_spec(min))
        };
        let h = hue_sixths(r, g, b, max, spread).over_spec(Single { bits: SIX });
        Hsl {
            h: if h.lt_spec(zero) {
                h.plus_spec(one)
            } else {
                h
            },
            s,
            l,
        }
    }
}

/// Hue, saturation and lightness of a colour held to `[0, 1]`.
#[verifier::when_used_as_spec(rgb_to_hsl_spec)]
pub fn rgb_to_hsl(r: Single, g: Single, b: Single) -> (c: Hsl)
    ensures
        c == rgb_to_hsl_spec(r, g, b),
{
    let zero = Single { bits: 0 };
    let one = Single { bits: ONE };
    let two = Single { bits: TWO };
    let r = to_unit(r);
    let g = to_unit(g);
    let b = to_unit(b);
    let max = r.max(g).max(b);
    let min = r.min(g).min(b);
    let l = max.plus(min).over(two);
    if max.same(min) {
        return Hsl { h: zero, s: zero, l };
    }
    let spread = max.minus(min);
    let s = if l.le(Single { bits: HALF }) {
        spread.over(max.plus(min))
    } else {
        spread.over(two.minus(max).minus(min))
    };
    let h = hue_in_sixths(r, g, b, max, spread).over(Single { bits: SIX });
    Hsl {
        h: if h.lt(zero) {
            h.plus(one)
        } else {
            h
        },
        s,
        l,
    }
}

/// 3.0.
pub const THREE: u32 = 0x4040_0000;

/// A channel of a colour by its distance on the colour circle: it rises from
/// `low` to `high` in the first sixth, holds for two, falls in the fourth.
pub open spec fn channel_at(low: Single, high: Single, sixths: Single) -> Single {
    let zero = Single { bits: 0 };
    let six = Single { bits: SIX };
    let four = Single { bits: FOUR };
    let h = if six.lt_spec(sixths) {
        sixths.minus_spec(six)
    } else if sixths.lt_spec(zero) {
        sixths.plus_spec(six)
    } else {
        sixths
    };
    if h.lt_spec(Single { bits: ONE }) {
        low.plus_spec(high.minus_spec(low).times_spec(h))
    } else if h.lt_spec(Single { bits: THREE }) {
        high
    } else if h.lt_spec(four) {
        low.plus_spec(high.minus_spec(low).times_spec(four.minus_spec(h)))
    } else {
        low
    }
}

fn channel_on_circle(low: Single, high: Single, sixths: Single) -> (r: Single)
    ensures
        r == channel_at(low, high, sixths),
{
    let zero = Single { bits: 0 };
    let six = Single { bits: SIX };
    let four = Single { bits: FOUR };
    let h = if six.lt(sixths) {
        sixths.minus(six)
    } else if sixths.lt(zero) {
        sixths.plus(six)
    } else {
        sixths
    };
    if h.lt(Single { bits: ONE }) {
        low.plus(high.minus(low).times(h))
    } else if h.lt(Single { bits: THREE }) {
        high
    } else if h.lt(four) {
        low.plus(high.minus(low).times(four.minus(h)))
    } else {
        low
    }
}

pub open spec fn hsl_to_rgb_spec(hsl: Hsl) -> RgbaF32 {
    let one = Single { bits: ONE };
    let two = Single { bits: TWO };
    if hsl.s.same_spec(Single { bits: 0 }) {
        RgbaF32 { r: hsl.l, g: hsl.l, b: hsl.l, a: one }
    } else {
        let high = if hsl.l.le_spec(Single { bits: HALF }) {
            hsl.l.times_spec(one.plus_spec(hsl.s))
        } else {
            hsl.l.plus_spec(hsl.s).minus_spec(hsl.l.times_spec(hsl.s))
        };
        let low = two.times_spec(hsl.l).minus_spec(high);
        let h = hsl.h.times_spec(Single { bits: SIX });
        RgbaF32 {
            r: channel_at(low, high, h.plus_spec(two)),
            g: channel_at(low, high, h),
            b: channel_at(low, high, h.minus_spec(two)),
            a: one,
        }
    }
}

#[verifier::when_used_as_spec(hsl_to_rgb_spec)]
pub fn hsl_to_rgb(hsl: Hsl) -> (c: RgbaF32)
    ensures
        c == hsl_to_rgb_spec(hsl),
{
    let one = Single { bits: ONE };
    let two = Single { bits: TWO };
    if hsl.s.same(Single { bits: 0 }) {
        return RgbaF32::new(hsl.l, hsl.l, hsl.l, one);
    }
    let high = if hsl.l.le(Single { bits: HALF }) {
        hsl.l.times(one.plus(hsl.s))
    } else {
        hsl.l.plus(hsl.s).minus(hsl.l.times(hsl.s))
    };
    let low = two.times(hsl.l).minus(high);
    let h = hsl.h.times(Single { bits: SIX });
    RgbaF32::new(
        channel_on_circle(low, high, h.plus(two)),
        channel_on_circle(low, high, h),
        channel_on_circle(low, high, h.minus(two)),
        one,
    )
}

/// A number between zero and one.
pub open spec fn proper(x: Single) -> bool {
    in_unit(x) && !x.nan()
}

/// A hue without its whole turns is between zero and one.
proof fn lemma_turn(h: Single)
    requires
        h.finite(),
    ensures
        proper(h.rem_euclid_spec(Single { bits: ONE })),
{
    let one = Single { bits: ONE };
    lemma_one();
    lemma_infinity_units();
    lemma_magnitude_zero();
    reveal(Single::rem_spec);
    let u = h.units() % pow2(149);
    let r = h.rem_spec(one);
    lemma_mod_bound(h.units() as int, pow2(149) as int);
    lemma_nearest_at_most(u, 1, ONE as nat);
    if r.lt_spec(Single { bits: 0 }) {
        lemma_plus_value(r, one);
        lemma_rounded_monotone(0, r.value() + one.value());
        lemma_rounded_monotone(r.value() + one.value(), one.value());
        lemma_rounded_exact(one);
        lemma_rounded_exact(Single { bits: 0 });
    }
}

/// The product of numbers between zero and one lies there too.
proof fn lemma_proper_product(a: Single, b: Single)
    requires
        proper(a),
        proper(b),
    ensures
        proper(a.times_spec(b)),
{
    lemma_one();
    lemma_infinity_units();
    lemma_times_in_unit(a, b);
    reveal(Single::times_spec);
}

/// Six is six units.
proof fn lemma_six()
    ensures
        (Single { bits: SIX }).units() == 6 * pow2(149),
{
    assert(pow2(23) == 0x80_0000 && pow2(21) == 0x20_0000) by {
        lemma2_to64();
    }
    lemma_pow2_adds(21, 128);
    assert(SIX as nat / 0x80_0000 == 129 && SIX as nat % 0x80_0000 == 0x40_0000);
    assert((Single { bits: SIX }).mag() == SIX);
    assert((Single { bits: SIX }).units() == (0x40_0000 + pow2(23)) * pow2(128));
    assert((0x40_0000 + 0x80_0000) * pow2(128) == 6 * pow2(149)) by (nonlinear_arith)
        requires
            0x20_0000 * pow2(128) == pow2(149),
    ;
}

/// The part of a sextant that a hue has passed is between zero and one.
proof fn lemma_passed(turn: Single)
    requires
        proper(turn),
    ensures
        ({
            let h = turn.times_spec(Single { bits: SIX });
            proper(h.minus_spec(Single::from_i32_spec(h.floor_i32_spec())))
        }),
{
    let six = Single { bits: SIX };
    let h = turn.times_spec(six);
    let unit = pow2(149);
    lemma_one();
    lemma_infinity_units();
    lemma_magnitude_zero();
    lemma_six();
    lemma_times_non_negative(turn, six);
    assert(h.finite() && 0 <= h.value() <= 6 * unit) by {
        reveal(Single::times_spec);
        let n = turn.units() * six.units();
        assert(n <= six.units() * unit) by (nonlinear_arith)
            requires
                n == turn.units() * six.units(),
                turn.units() <= unit,
        ;
        lemma_nearest_at_most(n, unit, SIX as nat);
    }
    let i = h.value() / (unit as int);
    lemma_fundamental_div_mod(h.value(), unit as int);
    lemma_mod_bound(h.value(), unit as int);
    lemma_div_pos_is_pos(h.value(), unit as int);
    lemma_div_is_ordered(h.value(), 6 * unit as int, unit as int);
    lemma_div_by_multiple(6, unit as int);
    assert(h.floor_i32_spec() == i);
    let whole = Single::from_i32_spec(i as i32);
    lemma_of_exact(i as nat);
    let less = whole.negate_spec();
    assert(unit as int * i == i * unit) by (nonlinear_arith);
    lemma_plus_value(h, less);
    lemma_rounded_monotone(0, h.value() + less.value());
    lemma_rounded_monotone(h.value() + less.value(), unit as int);
    lemma_rounded_exact(Single { bits: ONE });
    lemma_rounded_exact(Single { bits: 0 });
}

/// Whatever the hue, a saturation and a value between zero and one give a
/// colour whose channels are between zero and one.
pub proof fn law_hsv_stays_in_gamut(hsv: Hsv)
    requires
        hsv.h.finite(),
        proper(hsv.s),
        proper(hsv.v),
    ensures
        ({
            let c = hsv_to_rgb_spec(hsv);
            proper(c.r) && proper(c.g) && proper(c.b)
        }),
{
    let one = Single { bits: ONE };
    let turn = hsv.h.rem_euclid_spec(one);
    let h = turn.times_spec(Single { bits: SIX });
    let f = h.minus_spec(Single::from_i32_spec(h.floor_i32_spec()));
    lemma_turn(hsv.h);
    lemma_passed(turn);
    lemma_rest_in_unit(hsv.s);
    lemma_proper_product(hsv.v, one.minus_spec(hsv.s));
    lemma_proper_product(hsv.s, f);
    lemma_rest_in_unit(hsv.s.times_spec(f));
    lemma_proper_product(hsv.v, one.minus_spec(hsv.s.times_spec(f)));
    lemma_rest_in_unit(f);
    lemma_proper_product(hsv.s, one.minus_spec(f));
    lemma_rest_in_unit(hsv.s.times_spec(one.minus_spec(f)));
    lemma_proper_product(hsv.v, one.minus_spec(hsv.s.times_spec(one.minus_spec(f))));
}

/// A colour without saturation is grey: all channels are its value.
pub proof fn law_unsaturated_is_grey(h: Single, v: Single)
    requires
        h.finite(),
        !v.nan(),
    ensures
        ({
            let c = hsv_to_rgb_spec(Hsv { h, s: Single { bits: 0 }, v });
            c.r == v && c.g == v && c.b == v
        }),
{
    let zero = Single { bits: 0 };
    let one = Single { bits: ONE };
    let turn = h.rem_euclid_spec(one);
    let sixths = turn.times_spec(Single { bits: SIX });
    let f = sixths.minus_spec(Single::from_i32_spec(sixths.floor_i32_spec()));
    lemma_one();
    lemma_infinity_units();
    lemma_magnitude_zero();
    lemma_turn(h);
    lemma_passed(turn);
    lemma_rest_in_unit(f);
    law_times_nothing(zero, f);
    law_times_nothing(zero, one.minus_spec(f));
    lemma_less_nothing(zero);
    lemma_less_nothing(zero.times_spec(f));
    lemma_less_nothing(zero.times_spec(one.minus_spec(f)));
    law_times_one(v);
}

/// One less a zero of either sign is one.
proof fn lemma_less_nothing(z: Single)
    requires
        z.zero(),
    ensures
        (Single { bits: ONE }).minus_spec(z) == (Single { bits: ONE }),
{
    let one = Single { bits: ONE };
    let none = z.negate_spec();
    reveal(Single::plus_spec);
    lemma_one();
    lemma_magnitude_zero();
    lemma_code_exact(ONE as nat, 24);
}

} // verus!
