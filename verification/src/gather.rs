//! How a colour is gathered from the pixels of a spot: each by its own alpha,
//! light and pigment side by side.
//!
//! Values are in units of 2^-149, so that one is 2^149.
use crate::blend::{pixel_spectrum, Rgba};
use crate::color::unit;
use crate::covering::{lemma_pixel_reflectances, nearly, painted_pixel};
use crate::means::{
    lemma_over_close, lemma_plus_close, lemma_rest, lemma_same_value, lemma_weighed_sum, proper,
    size,
};
use crate::mixing::law_full_weight_stands_alone;
use crate::pickup::{
    below, bounded, lemma_shares, lemma_some_alpha, lemma_straight, lemma_sum_finite,
    lemma_weighed_alpha,
};
use crate::pigment::{new_share, old_share, picked, pigment_color, weighed_alpha, Pickup};
use crate::powers::law_whole_weight_keeps_the_spectrum;
use crate::range::{
    lemma_no_units, lemma_one, lemma_plus_at_least, lemma_plus_value, lemma_rounded_exact,
};
use crate::single::{
    law_minus_itself, law_times_commutes, law_times_nothing, law_times_one, lemma_nearest_exact,
    lemma_of_exact, Single, ONE,
};
use crate::spectral::seen;
use vstd::arithmetic::power2::*;
use vstd::prelude::*;

verus! {

/// The share of the first pixel that has alpha is all there is.
proof fn lemma_first_shares(a: Single, sum: Single)
    requires
        a.finite(),
        a.value() > 0,
        sum.zero(),
    ensures
        new_share(a, sum) == (Single { bits: ONE }),
        old_share(a, sum) == (Single { bits: 0 }),
{
    let one = Single { bits: ONE };
    lemma_one();
    lemma_no_units(sum);
    lemma_no_units(a);
    lemma_plus_value(a, sum);
    lemma_rounded_exact(a);
    lemma_same_value(a.plus_spec(sum), a);
    law_minus_itself(one);
    reveal(Single::over_spec);
    let n = a.units() * pow2(149);
    assert(n == (1 * pow2(149)) * a.units()) by (nonlinear_arith)
        requires
            n == a.units() * pow2(149),
    ;
    lemma_nearest_exact(n, a.units(), 1, 149);
    lemma_same_value(a.over_spec(a), one);
}

/// The first pixel with alpha in a spot is taken whole: as light its own straight
/// channels, and as pigment its own spectrum, whatever the average was before.
pub proof fn law_first_pixel_is_taken_whole(
    v: Pickup,
    w: Pickup,
    mask: int,
    p: Rgba,
    paint: Single,
)
    requires
        bounded(v),
        bounded(w),
        v.alpha.zero(),
        w.alpha.zero(),
        0 < mask <= 32768,
        painted_pixel(p),
    ensures
        ({
            let x = picked(v, mask, p.r, p.g, p.b, p.a, paint);
            let y = picked(w, mask, p.r, p.g, p.b, p.a, paint);
            let a = Single::of(p.a);
            &&& (Single { bits: 0 }).lt_spec(paint) ==> x.bands == y.bands && nearly(
                x.bands,
                pixel_spectrum(p),
            )
            &&& paint.lt_spec(Single { bits: ONE }) ==> x.rgb[0].value() == Single::of(
                p.r,
            ).over_spec(a).value() && x.rgb[1].value() == Single::of(p.g).over_spec(a).value()
                && x.rgb[2].value() == Single::of(p.b).over_spec(a).value()
        }),
{
    let one = Single { bits: ONE };
    let zero = Single { bits: 0 };
    let a = weighed_alpha(mask, p.a);
    lemma_weighed_alpha(mask, p.a);
    lemma_some_alpha(mask, p.a);
    lemma_first_shares(a, v.alpha);
    lemma_first_shares(a, w.alpha);
    lemma_pixel_reflectances(p);
    let own = pixel_spectrum(p);
    let x = picked(v, mask, p.r, p.g, p.b, p.a, paint);
    if zero.lt_spec(paint) {
        assert forall|i: int| 0 <= i < 10 implies (#[trigger] v.bands[i]).bits < 0x7f80_0000 by {}
        assert forall|i: int| 0 <= i < 10 implies (#[trigger] w.bands[i]).bits < 0x7f80_0000 by {}
        law_full_weight_stands_alone(own, v.bands, w.bands);
        assert forall|i: int| 0 <= i < 10 implies size((#[trigger] x.bands[i]).bits - own[i].bits)
            <= 722800 by {
            law_whole_weight_keeps_the_spectrum(own, v.bands, i);
        }
    }
    lemma_taken(p.r, p.a, v.rgb[0]);
    lemma_taken(p.g, p.a, v.rgb[1]);
    lemma_taken(p.b, p.a, v.rgb[2]);
}

/// One channel that is taken whole.
proof fn lemma_taken(c: int, alpha: int, old: Single)
    requires
        0 <= c <= 65535,
        0 < alpha <= 65535,
        below(old, 191),
    ensures
        ({
            let pa = Single::of(alpha);
            let x = Single::of(c).times_spec(Single { bits: ONE }).over_spec(pa).plus_spec(
                old.times_spec(Single { bits: 0 }),
            );
            x.value() == Single::of(c).over_spec(pa).value()
        }),
{
    let zero = Single { bits: 0 };
    let q = Single::of(c).over_spec(Single::of(alpha));
    lemma_one();
    lemma_of_exact(c as nat);
    law_times_one(Single::of(c));
    law_times_commutes(old, zero);
    law_times_nothing(zero, old);
    let none = old.times_spec(zero);
    lemma_no_units(none);
    lemma_straight(c, alpha);
    lemma_plus_value(q, none);
    lemma_rounded_exact(q);
}

/// A pixel has the share of the average that its alpha is of all the alpha so
/// far, and what was there before keeps the rest.
pub proof fn law_pixels_share_by_alpha(a: Single, sum: Single)
    requires
        below(a, 150),
        below(sum, 176),
        a.value() > 0,
    ensures
        ({
            let u = pow2(149) as int;
            let (f, g) = (new_share(a, sum), old_share(a, sum));
            &&& proper(f)
            &&& proper(g)
            &&& size(f.value() + g.value() - u) <= pow2(125)
            &&& 0x40_0000 * size(f.value() * (a.value() + sum.value()) - a.value() * u) <= u * (
            a.value() + sum.value()) + 0x100_0000 * u
        }),
{
    let u = pow2(149) as int;
    let s = a.plus_spec(sum);
    let f = new_share(a, sum);
    lemma_one();
    lemma_shares(a, sum);
    lemma_sum_finite(a, sum);
    lemma_plus_at_least(a, sum, a);
    assert((Single { bits: 0 }).lt_spec(s));
    lemma_over_close(a, s);
    lemma_plus_close(a, sum);
    lemma_rest(f);
    let (av, sv, fv, t) = (a.value(), s.value(), f.value(), a.value() + sum.value());
    let e = sv - t;
    let ft = fv * t;
    assert(fv * sv == ft + fv * e) by (nonlinear_arith)
        requires
            ft == fv * t,
            e == sv - t,
    ;
    assert(0x100_0000 * size(fv * e) <= u * t + 0x80_0000 * u) by (nonlinear_arith)
        requires
            0x100_0000 * size(e) <= t + 0x80_0000,
            0 <= fv <= u,
            size(e) == (if e < 0 {
                -e
            } else {
                e
            }),
            size(fv * e) == (if fv * e < 0 {
                -(fv * e)
            } else {
                fv * e
            }),
    ;
    assert(0 <= av * u <= u * t) by (nonlinear_arith)
        requires
            0 <= av <= t,
            u > 0,
    ;
    assert(sv <= 2 * t + 1);
    lemma_pow2_strictly_increases(24, 149);
    assert(pow2(24) == 0x100_0000) by {
        lemma2_to64();
    }
    assert(0x100_0000 * t <= u * t) by (nonlinear_arith)
        requires
            t >= 0,
            u >= 0x100_0000,
    ;
}

/// Whether a channel is pigment as far as `paint` goes and light for the rest.
pub open spec fn lit(pigment: Single, light: Single, paint: Single, out: Single) -> bool {
    let u = pow2(149) as int;
    let f = paint.value();
    &&& proper(out)
    &&& size(u * out.value() - (f * pigment.value() + (u - f) * light.value())) <= u * pow2(129)
}

/// A colour that is gathered is pigment as far as the brush paints with it, and
/// light for the rest, channel by channel.
pub proof fn law_gathered_colour_is_pigment_and_light(v: Pickup, paint: Single)
    requires
        v.rgb.len() == 3,
        proper(v.rgb[0]) && proper(v.rgb[1]) && proper(v.rgb[2]),
        proper(seen(v.bands).0) && proper(seen(v.bands).1) && proper(seen(v.bands).2),
        proper(paint),
        v.weight.finite() && v.weight.value() > 0,
        (Single { bits: 0 }).lt_spec(v.alpha.over_spec(v.weight)),
    ensures
        ({
            let c = pigment_color(v, paint);
            let p = seen(v.bands);
            &&& lit(p.0, v.rgb[0], paint, c.r)
            &&& lit(p.1, v.rgb[1], paint, c.g)
            &&& lit(p.2, v.rgb[2], paint, c.b)
        }),
{
    let p = seen(v.bands);
    lemma_one();
    lemma_lit(p.0, v.rgb[0], paint);
    lemma_lit(p.1, v.rgb[1], paint);
    lemma_lit(p.2, v.rgb[2], paint);
}

proof fn lemma_lit(c: Single, l: Single, paint: Single)
    requires
        proper(c),
        proper(l),
        proper(paint),
    ensures
        ({
            let rest = (Single { bits: ONE }).minus_spec(paint);
            lit(
                c,
                l,
                paint,
                unit(c.times_spec(paint).plus_spec(rest.times_spec(l))),
            )
        }),
{
    let u = pow2(149) as int;
    let w = pow2(125) as int;
    let one = Single { bits: ONE };
    let rest = one.minus_spec(paint);
    let sum = c.times_spec(paint).plus_spec(rest.times_spec(l));
    lemma_one();
    lemma_rest(paint);
    lemma_weighed_sum(c, paint, rest, l);
    lemma_pow2_unfold(126);
    lemma_pow2_unfold(127);
    lemma_pow2_unfold(128);
    lemma_pow2_unfold(129);
    lemma_pow2_pos(125);
    let (f, x, y, r) = (paint.value(), c.value(), l.value(), rest.value());
    let want = f * x + (u - f) * y;
    let e = r - (u - f);
    assert(r * y == (u - f) * y + e * y) by (nonlinear_arith)
        requires
            e == r - (u - f),
    ;
    assert(x * f == f * x) by (nonlinear_arith);
    assert(-(u * w) <= e * y <= u * w) by (nonlinear_arith)
        requires
            -w <= e <= w,
            0 <= y <= u,
    ;
    assert(u * (8 * w) == 8 * (u * w) && u * (16 * w) == 16 * (u * w)) by (nonlinear_arith);
    assert(want <= u * u) by (nonlinear_arith)
        requires
            want == f * x + (u - f) * y,
            0 <= f <= u,
            0 <= x <= u,
            0 <= y <= u,
    ;
    if sum.value() > u {
        assert(u * sum.value() >= u * u) by (nonlinear_arith)
            requires
                sum.value() > u,
                u > 0,
        ;
    }
    lemma_no_units(sum);
}

} // verus!
