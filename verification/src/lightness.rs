//! What colour a hue, a saturation and a lightness make.
//!
//! Values are in units of 2^-149, so that one is 2^149.
use crate::color::{channel_at, hsl_to_rgb_spec, rgb_to_hsl_spec, unit, Hsl, THREE};
use crate::edge::lemma_least;
use crate::means::{
    close, lemma_over_close, lemma_over_finite, lemma_part_way, lemma_proper_product, part_way,
    proper, size, spans,
};
use crate::range::{
    lemma_known, lemma_negate, lemma_one, lemma_over_near, lemma_plus_near, lemma_plus_value,
    lemma_rounded_exact, lemma_rounded_monotone, lemma_times_near,
};
use crate::single::{Single, FOUR, HALF, ONE, SIX, TWO};
use vstd::arithmetic::power2::*;
use vstd::prelude::*;

verus! {

/// A place on the circle of hues, which is six units around.
pub open spec fn around(e: int) -> int {
    let u = pow2(149) as int;
    if e > 6 * u {
        e - 6 * u
    } else if e < 0 {
        e + 6 * u
    } else {
        e
    }
}

/// Whether `v` is between `low` and `high`, the part `e` of the way up.
pub open spec fn between(low: Single, high: Single, e: int, v: Single) -> bool {
    exists|part: Single|
        {
            &&& proper(part)
            &&& size(part.value() - e) <= pow2(130)
            &&& #[trigger] part_way(low, high, part, v, 131)
        }
}

/// Whether `v` is a channel `e` after it begins to rise: it rises for one unit,
/// is high for two, falls for one and is low for two.
pub open spec fn on_the_circle(low: Single, high: Single, e: int, v: Single) -> bool {
    let u = pow2(149) as int;
    let gap = pow2(130) as int;
    &&& gap <= e <= u - gap ==> between(low, high, e, v)
    &&& u + gap <= e <= 3 * u - gap ==> v == high
    &&& 3 * u + gap <= e <= 4 * u - gap ==> between(low, high, 4 * u - e, v)
    &&& 4 * u + gap <= e <= 6 * u - gap ==> v == low
}

/// The whole numbers up to six.
pub proof fn lemma_numbers()
    ensures
        (Single { bits: TWO }).finite() && (Single { bits: TWO }).value() == 2 * pow2(149),
        (Single { bits: THREE }).finite() && (Single { bits: THREE }).value() == 3 * pow2(149),
        (Single { bits: FOUR }).finite() && (Single { bits: FOUR }).value() == 4 * pow2(149),
        (Single { bits: SIX }).finite() && (Single { bits: SIX }).value() == 6 * pow2(149),
        2 * (Single { bits: HALF }).value() == pow2(149),
        (Single { bits: HALF }).finite(),
        pow2(149) == 0x80_0000 * pow2(126),
        pow2(127) == 2 * pow2(126),
        pow2(128) == 4 * pow2(126),
        pow2(129) == 8 * pow2(126),
        pow2(130) == 16 * pow2(126),
        pow2(150) == 2 * pow2(149),
        pow2(151) == 4 * pow2(149),
        pow2(152) == 8 * pow2(149),
        pow2(153) == 16 * pow2(149),
        pow2(126) > 0,
{
    lemma_known(TWO, 0x80_0000, 127);
    lemma_known(THREE, 0xc0_0000, 127);
    lemma_known(FOUR, 0x80_0000, 128);
    lemma_known(SIX, 0xc0_0000, 128);
    lemma_known(HALF, 0x80_0000, 125);
    lemma_pow2_unfold(126);
    lemma_pow2_unfold(127);
    lemma_pow2_unfold(128);
    lemma_pow2_unfold(129);
    lemma_pow2_unfold(130);
    lemma_pow2_unfold(150);
    lemma_pow2_unfold(151);
    lemma_pow2_unfold(152);
    lemma_pow2_unfold(153);
    lemma_pow2_adds(23, 126);
    lemma_pow2_pos(125);
    assert(pow2(23) == 0x80_0000) by {
        lemma2_to64();
    }
    let w = pow2(126) as int;
    assert(pow2(149) == 0x80_0000 * w);
}

/// A channel of a hue.
proof fn lemma_channel(low: Single, high: Single, s: Single, e: int)
    requires
        spans(low, 152),
        spans(high, 152),
        s.finite(),
        size(s.value() - e) <= 6 * pow2(126),
        -2 * pow2(149) <= e <= 8 * pow2(149),
    ensures
        on_the_circle(low, high, around(e), channel_at(low, high, s)),
{
    let u = pow2(149) as int;
    let gap = pow2(130) as int;
    let at = around(e);
    let one = Single { bits: ONE };
    let four = Single { bits: FOUR };
    let six = Single { bits: SIX };
    lemma_one();
    lemma_numbers();
    if gap <= at <= 6 * u - gap {
        let h = if six.lt(s) {
            s.minus(six)
        } else if s.lt(Single { bits: 0 }) {
            s.plus(six)
        } else {
            s
        };
        lemma_negate(six);
        if six.lt(s) {
            lemma_plus_near(s, six.negate(), 152);
        } else if s.lt(Single { bits: 0 }) {
            lemma_plus_near(s, six, 152);
        }
        assert(h.finite() && size(h.value() - at) <= 8 * pow2(126));
        let v = channel_at(low, high, s);
        if at <= u - gap {
            lemma_part_way(low, high, h, 152);
            assert(part_way(low, high, h, v, 131));
        } else if 3 * u + gap <= at <= 4 * u - gap {
            lemma_negate(h);
            lemma_plus_near(four, h.negate(), 150);
            let part = four.minus(h);
            lemma_part_way(low, high, part, 152);
            assert(part_way(low, high, part, v, 131));
        }
    }
}

/// Whether a colour of saturation `s` and lightness `l` has these as its lowest
/// and highest channel: their mean is the lightness, and the highest is
/// `l (1 + s)`, or `l + s - l s` where the lightness is above a half.
pub open spec fn ends_of(s: Single, l: Single, low: Single, high: Single) -> bool {
    let u = pow2(149) as int;
    let (sv, lv) = (s.value(), l.value());
    &&& spans(low, 152) && spans(high, 152)
    &&& size(low.value() + high.value() - 2 * lv) <= pow2(129)
    &&& 2 * lv <= u ==> size(u * high.value() - (u * lv + lv * sv)) <= u * pow2(129)
    &&& 2 * lv > u ==> size(u * high.value() - (u * lv + u * sv - lv * sv)) <= u * pow2(129)
}

/// The highest channel of a colour.
proof fn lemma_high(s: Single, l: Single)
    requires
        proper(s),
        proper(l),
    ensures
        ({
            let u = pow2(149) as int;
            let one = Single { bits: ONE };
            let (sv, lv) = (s.value(), l.value());
            let a = l.times(one.plus(s));
            let b = l.plus(s).minus(l.times(s));
            &&& a.finite() && size(u * a.value() - (u * lv + lv * sv)) <= u * pow2(128)
            &&& b.finite() && size(u * b.value() - (u * lv + u * sv - lv * sv)) <= u * pow2(128)
            &&& -u <= a.value() <= 3 * u
            &&& -u <= b.value() <= 3 * u
        }),
{
    let u = pow2(149) as int;
    let w = pow2(126) as int;
    let one = Single { bits: ONE };
    let (sv, lv) = (s.value(), l.value());
    lemma_one();
    lemma_numbers();
    assert(0 <= lv * sv <= u * lv && 0 <= u * lv <= u * u && 0 <= u * sv <= u * u)
        by (nonlinear_arith)
        requires
            0 <= lv <= u,
            0 <= sv <= u,
    ;
    // Up to a half.
    let t = one.plus(s);
    lemma_plus_near(one, s, 151);
    let tv = t.value();
    let d = tv - (u + sv);
    assert(lv * tv == u * lv + lv * sv + lv * d) by (nonlinear_arith)
        requires
            d == tv - (u + sv),
    ;
    assert(-(u * w) <= lv * d <= u * w) by (nonlinear_arith)
        requires
            -w <= d <= w,
            0 <= lv <= u,
    ;
    assert(0x80_0000 * (u * w) == u * u) by (nonlinear_arith)
        requires
            u == 0x80_0000 * w,
    ;
    assert(pow2(151) * pow2(149) == 4 * (u * u)) by (nonlinear_arith)
        requires
            pow2(151) == 4 * u,
            pow2(149) == u,
    ;
    assert(u * u > 0) by (nonlinear_arith)
        requires
            u > 0,
    ;
    lemma_times_near(l, t, 151);
    let av = l.times(t).value();
    assert(av * u == u * av && u * (4 * w) == 4 * (u * w) && u * (2 * w) == 2 * (u * w))
        by (nonlinear_arith);
    assert(size(u * av - (u * lv + lv * sv)) <= 4 * (u * w));
    assert(-u <= av <= 3 * u) by (nonlinear_arith)
        requires
            -(u * u) <= u * av <= 3 * (u * u),
            u > 0,
    ;
    // Above a half.
    let p = l.times(s);
    let q = l.plus(s);
    lemma_proper_product(l, s);
    lemma_plus_near(l, s, 151);
    lemma_negate(p);
    lemma_plus_near(q, p.negate(), 151);
    let (pv, qv, bv) = (p.value(), q.value(), q.minus(p).value());
    let f = bv - (lv + sv - pv);
    assert(u * bv == u * lv + u * sv - u * pv + u * f) by (nonlinear_arith)
        requires
            f == bv - (lv + sv - pv),
    ;
    assert(-(2 * (u * w)) <= u * f <= 2 * (u * w)) by (nonlinear_arith)
        requires
            -(2 * w) <= f <= 2 * w,
            u > 0,
    ;
    assert(size(u * bv - (u * lv + u * sv - lv * sv)) <= 4 * (u * w));
    assert(-u <= bv <= 3 * u) by (nonlinear_arith)
        requires
            -(u * u) <= u * bv <= 3 * (u * u),
            u > 0,
    ;
}

/// A colour of a hue, a saturation and a lightness is grey where there is no
/// saturation.  Else red is in the middle of its height at hue zero, green at a
/// third and blue at two thirds of the circle, each between the lowest and the
/// highest channel of the saturation and the lightness.
pub proof fn law_channels_stand_by_their_hues(hsl: Hsl)
    requires
        proper(hsl.h),
        proper(hsl.s),
        proper(hsl.l),
    ensures
        ({
            let u = pow2(149) as int;
            let c = hsl_to_rgb_spec(hsl);
            let e = 6 * hsl.h.value();
            &&& hsl.s.value() == 0 ==> c.r == hsl.l && c.g == hsl.l && c.b == hsl.l
            &&& hsl.s.value() != 0 ==> exists|low: Single, high: Single|
                {
                    &&& #[trigger] ends_of(hsl.s, hsl.l, low, high)
                    &&& on_the_circle(low, high, around(e + 2 * u), c.r)
                    &&& on_the_circle(low, high, around(e), c.g)
                    &&& on_the_circle(low, high, around(e - 2 * u), c.b)
                }
        }),
{
    let u = pow2(149) as int;
    let one = Single { bits: ONE };
    let two = Single { bits: TWO };
    let six = Single { bits: SIX };
    lemma_one();
    lemma_numbers();
    if hsl.s.value() != 0 {
        let high = if hsl.l.le(Single { bits: HALF }) {
            hsl.l.times(one.plus(hsl.s))
        } else {
            hsl.l.plus(hsl.s).minus(hsl.l.times(hsl.s))
        };
        let low = two.times(hsl.l).minus(high);
        lemma_high(hsl.s, hsl.l);
        lemma_low(hsl.l, high);
        assert(u * pow2(128) <= u * pow2(129)) by (nonlinear_arith)
            requires
                pow2(128) <= pow2(129),
                u > 0,
        ;
        assert(ends_of(hsl.s, hsl.l, low, high));
        let e = 6 * hsl.h.value();
        let h = hsl.h.times(six);
        lemma_sixths(hsl.h);
        lemma_negate(two);
        lemma_plus_near(h, two, 153);
        lemma_plus_near(h, two.negate(), 152);
        lemma_channel(low, high, h.plus(two), e + 2 * u);
        lemma_channel(low, high, h, e);
        lemma_channel(low, high, h.minus(two), e - 2 * u);
    }
}

/// The lowest channel of a colour.
proof fn lemma_low(l: Single, high: Single)
    requires
        proper(l),
        high.finite(),
        -pow2(149) <= high.value() <= 3 * pow2(149),
    ensures
        ({
            let low = (Single { bits: TWO }).times(l).minus(high);
            &&& spans(low, 152)
            &&& spans(high, 152)
            &&& size(low.value() + high.value() - 2 * l.value()) <= pow2(129)
        }),
{
    let u = pow2(149) as int;
    let w = pow2(126) as int;
    let two = Single { bits: TWO };
    let (lv, t) = (l.value(), two.value());
    lemma_one();
    lemma_numbers();
    assert(0 <= t * lv && t * lv < pow2(151) * pow2(149)) by (nonlinear_arith)
        requires
            t == 2 * u,
            0 <= lv <= u,
            pow2(151) == 4 * u,
            pow2(149) == u,
            u > 0,
    ;
    lemma_times_near(two, l, 151);
    let d = two.times(l);
    let dv = d.value();
    assert(-(2 * w) <= 2 * (dv - 2 * lv) <= 2 * w) by (nonlinear_arith)
        requires
            2 * (dv * u) <= 2 * (t * lv) + u * (2 * w),
            2 * (t * lv) <= 2 * (dv * u) + u * (2 * w),
            t == 2 * u,
            u > 0,
    ;
    lemma_negate(high);
    lemma_plus_near(d, high.negate(), 152);
}

/// A hue in sixths of the circle.
proof fn lemma_sixths(h: Single)
    requires
        proper(h),
    ensures
        ({
            let x = h.times(Single { bits: SIX });
            &&& x.finite()
            &&& size(x.value() - 6 * h.value()) <= pow2(127)
        }),
{
    let u = pow2(149) as int;
    let w = pow2(126) as int;
    let six = Single { bits: SIX };
    let (hv, s) = (h.value(), six.value());
    lemma_one();
    lemma_numbers();
    assert(0 <= hv * s && hv * s < pow2(152) * pow2(149)) by (nonlinear_arith)
        requires
            s == 6 * u,
            0 <= hv <= u,
            pow2(152) == 8 * u,
            pow2(149) == u,
            u > 0,
    ;
    lemma_times_near(h, six, 152);
    let x = h.times(six).value();
    assert(-(4 * w) <= 2 * (x - 6 * hv) <= 4 * w) by (nonlinear_arith)
        requires
            2 * (x * u) <= 2 * (hv * s) + u * (4 * w),
            2 * (hv * s) <= 2 * (x * u) + u * (4 * w),
            s == 6 * u,
            u > 0,
    ;
}

/// The largest of three numbers.
pub open spec fn top_of(r: Single, g: Single, b: Single) -> int {
    let m = if r.value() >= g.value() {
        r.value()
    } else {
        g.value()
    };
    if m >= b.value() {
        m
    } else {
        b.value()
    }
}

/// The smallest of three numbers.
pub open spec fn bottom_of(r: Single, g: Single, b: Single) -> int {
    let m = if r.value() <= g.value() {
        r.value()
    } else {
        g.value()
    };
    if m <= b.value() {
        m
    } else {
        b.value()
    }
}

/// Whether `s` is the ratio of two numbers: of `x` to `d`.
pub open spec fn ratio_of(x: Single, d: Single, s: Single) -> bool {
    d.value() > 0 && close(s.value() * d.value(), x.value() * pow2(149), d.value())
}

/// The lightness of a colour is the mean of its largest and smallest channel;
/// the saturation is their difference by their sum, or by what the sum leaves
/// of two where the lightness is above a half; greys have none.
pub proof fn law_lightness_is_the_mean(r: Single, g: Single, b: Single)
    requires
        proper(r),
        proper(g),
        proper(b),
    ensures
        ({
            let u = pow2(149) as int;
            let hsl = rgb_to_hsl_spec(r, g, b);
            let (top, bottom) = (top_of(r, g, b), bottom_of(r, g, b));
            &&& size(2 * hsl.l.value() - (top + bottom)) <= pow2(128)
            &&& top == bottom ==> hsl.s.value() == 0 && hsl.h.value() == 0
            &&& top != bottom ==> exists|x: Single, d: Single|
                {
                    &&& #[trigger] ratio_of(x, d, hsl.s)
                    &&& size(x.value() - (top - bottom)) <= pow2(126)
                    &&& 2 * hsl.l.value() <= u ==> size(d.value() - (top + bottom)) <= pow2(127)
                    &&& 2 * hsl.l.value() > u ==> size(d.value() - (2 * u - top - bottom)) <= pow2(
                        127,
                    )
                }
        }),
{
    let u = pow2(149) as int;
    lemma_one();
    lemma_numbers();
    assert(unit(r) == r && unit(g) == g && unit(b) == b);
    let max = r.max(g).max(b);
    let min = r.min(g).min(b);
    let hsl = rgb_to_hsl_spec(r, g, b);
    let two = Single { bits: TWO };
    assert(max.value() == top_of(r, g, b) && min.value() == bottom_of(r, g, b));
    assert(proper(max) && proper(min));
    let l = max.plus(min).over(two);
    lemma_mean(max, min);
    assert(hsl.l == l);
    if max.value() != min.value() {
        lemma_spread(max, min);
        let x = max.minus(min);
        let d = if l.le(Single { bits: HALF }) {
            max.plus(min)
        } else {
            two.minus(max).minus(min)
        };
        assert(hsl.s == x.over(d));
        assert(ratio_of(x, d, hsl.s));
    }
}

/// The mean of two numbers.
proof fn lemma_mean(max: Single, min: Single)
    requires
        proper(max),
        proper(min),
    ensures
        ({
            let l = max.plus(min).over(Single { bits: TWO });
            &&& l.finite()
            &&& size(2 * l.value() - (max.value() + min.value())) <= pow2(128)
        }),
{
    let u = pow2(149) as int;
    let w = pow2(126) as int;
    let two = Single { bits: TWO };
    lemma_one();
    lemma_numbers();
    lemma_plus_near(max, min, 151);
    lemma_plus_value(max, min);
    lemma_rounded_exact(Single { bits: 0 });
    lemma_rounded_monotone(0, max.value() + min.value());
    let sum = max.plus(min);
    let (a, t) = (sum.value(), two.value());
    assert(a * u < pow2(151) * t) by (nonlinear_arith)
        requires
            0 <= a <= 3 * u,
            t == 2 * u,
            pow2(151) == 4 * u,
            u > 0,
    ;
    lemma_over_near(sum, two, 151);
    let l = sum.over(two).value();
    assert(-(2 * w) <= 2 * l - a <= 2 * w) by (nonlinear_arith)
        requires
            2 * (l * t) <= 2 * (a * u) + t * (2 * w),
            2 * (a * u) <= 2 * (l * t) + t * (2 * w),
            t == 2 * u,
            u > 0,
    ;
}

/// The difference of two channels, against their sum and against what it
/// leaves of two.
proof fn lemma_spread(max: Single, min: Single)
    requires
        proper(max),
        proper(min),
        min.value() < max.value(),
    ensures
        ({
            let u = pow2(149) as int;
            let x = max.minus(min);
            let d = max.plus(min);
            let e = (Single { bits: TWO }).minus(max).minus(min);
            &&& ratio_of(x, d, x.over(d))
            &&& ratio_of(x, e, x.over(e))
            &&& size(x.value() - (max.value() - min.value())) <= pow2(126)
            &&& size(d.value() - (max.value() + min.value())) <= pow2(127)
            &&& size(e.value() - (2 * u - max.value() - min.value())) <= pow2(127)
        }),
{
    let u = pow2(149) as int;
    let one = Single { bits: ONE };
    let two = Single { bits: TWO };
    let (x, d, c) = (max.minus(min), max.plus(min), two.minus(max));
    let e = c.minus(min);
    let (a, b) = (max.value(), min.value());
    lemma_one();
    lemma_numbers();
    lemma_negate(min);
    lemma_negate(max);
    lemma_plus_near(max, min.negate(), 150);
    lemma_plus_near(max, min, 151);
    lemma_plus_near(two, max.negate(), 151);
    lemma_plus_value(max, min.negate());
    lemma_plus_value(max, min);
    lemma_plus_value(two, max.negate());
    lemma_rounded_exact(one);
    lemma_least();
    lemma_rounded_exact(Single { bits: 1 });
    lemma_rounded_monotone(1, a - b);
    lemma_rounded_monotone(a - b, a + b);
    lemma_rounded_monotone(u, 2 * u - a);
    lemma_plus_near(c, min.negate(), 151);
    lemma_plus_value(c, min.negate());
    lemma_rounded_monotone(a - b, c.value() - b);
    lemma_ratio(x, d);
    lemma_ratio(x, e);
}

/// A ratio of at most one.
proof fn lemma_ratio(x: Single, d: Single)
    requires
        x.finite(),
        d.finite(),
        0 < x.value() <= d.value(),
    ensures
        ratio_of(x, d, x.over(d)),
{
    let u = pow2(149) as int;
    let (a, b) = (x.value(), d.value());
    lemma_numbers();
    lemma_pow2_pos(149);
    assert(size(a) * u < pow2(150) * b) by (nonlinear_arith)
        requires
            size(a) == a,
            0 < a <= b,
            pow2(150) == 2 * u,
            u > 0,
    ;
    lemma_over_finite(x, d, 150);
    lemma_over_close(x, d);
}

} // verus!
