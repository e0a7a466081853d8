//! What the blend modes keep in range: channels stay within fix15, and all but
//! posterizing keep pixels premultiplied.
use crate::blend::{
    colorize, faded, fits, law_coloured_stays_in_range, law_pixels_stay_premultiplied,
    law_posterize_stays_in_range, lemma_joined, lemma_locked, lemma_shown, lemma_stacked, loaded,
    lock_alpha, lock_alpha_paint, normal, normal_and_eraser, normal_and_eraser_paint, normal_paint,
    pigment, pigment_opacity, pigment_share, pixel_spectrum, posterize, premultiplied, shown,
    source_share, stacked, straight, with_luminance, Rgba, Source, SCALE,
};
use crate::range::{
    in_unit, lemma_finite_or_infinite, lemma_nan_factors, lemma_nan_terms, lemma_nearest_at_most,
    lemma_negate, lemma_no_units, lemma_one, lemma_plus_value, lemma_rest_in_unit,
    lemma_rounded_monotone, lemma_times_in_unit, lemma_times_non_negative, lemma_times_order,
    lemma_unit_in_unit, rounded,
};
use crate::rounding::{code, lemma_code_error, magnitude};
use crate::single::{
    law_times_commutes, law_times_nothing, law_times_one, lemma_infinity_units,
    lemma_magnitude_zero, lemma_nearest_exact, lemma_of_exact, nearest, Single, HALF, INFINITY, ONE,
};
use crate::spectral::{
    blended, channel, seen, spectral_share, weighed, TO_BLUE, TO_GREEN, TO_RED, WGM_EPSILON,
};
use vstd::arithmetic::div_mod::*;
use vstd::arithmetic::power2::*;
use vstd::prelude::*;

verus! {

/// A pixel whose channels are in the range of fix15.
pub open spec fn ranged(p: Rgba) -> bool {
    &&& 0 <= p.r <= 32768
    &&& 0 <= p.g <= 32768
    &&& 0 <= p.b <= 32768
    &&& 0 <= p.a <= 32768
}

/// One half is half a unit.
proof fn lemma_half_value()
    ensures
        (Single { bits: HALF }).finite(),
        (Single { bits: HALF }).value() == pow2(148),
        pow2(149) == 2 * pow2(148),
        pow2(148) > 0,
{
    assert(pow2(23) == 0x80_0000) by {
        lemma2_to64();
    }
    lemma_pow2_adds(23, 125);
    assert(HALF as nat / 0x80_0000 == 126 && HALF as nat % 0x80_0000 == 0);
    assert(magnitude(HALF as nat, 24) == (0 + pow2(23)) * pow2(125));
    lemma_pow2_unfold(149);
    lemma_pow2_pos(148);
}

/// What is not more than `n` and a half is cut to at most `n`.
proof fn lemma_cut_to(v: Single, n: int)
    requires
        !v.nan(),
        0 <= n <= 32768,
        0 <= v.value(),
        2 * v.value() <= (2 * n + 1) * pow2(149),
    ensures
        0 <= v.truncated() <= n,
{
    let u = pow2(149) as int;
    lemma_one();
    assert(v.value() < (n + 1) * u) by (nonlinear_arith)
        requires
            2 * v.value() <= (2 * n + 1) * u,
            u > 0,
    ;
    lemma_div_pos_is_pos(v.value(), u);
    lemma_multiply_divide_lt(v.value(), u, n + 1);
    assert(0int / u == 0) by {
        lemma_div_by_multiple(0, u);
    }
    if v.negative() {
        assert(v.units() == 0);
    }
}

/// A half above an integer is a single, and what is below it is not rounded
/// above it.
proof fn lemma_rounded_to_half(v: int, n: int)
    requires
        0 <= n <= 32768,
        0 <= v,
        2 * v <= (2 * n + 1) * pow2(149),
    ensures
        0 <= rounded(v),
        2 * rounded(v) <= (2 * n + 1) * pow2(149),
{
    lemma_half_value();
    let m = (2 * n + 1) as nat;
    let top = m * pow2(148);
    assert(2 * top == (2 * n + 1) * pow2(149)) by (nonlinear_arith)
        requires
            top == m * pow2(148),
            m == 2 * n + 1,
            pow2(149) == 2 * pow2(148),
    ;
    assert(top * 1 == top);
    lemma_nearest_exact(top * 1, 1, m, 148);
    assert(rounded(top as int) == top);
    lemma_rounded_monotone(v, top as int);
    lemma_rounded_monotone(0, v);
}

/// A share of a number up to one is no more than the number.
proof fn lemma_share(c: Single, n: int)
    requires
        in_unit(c),
        !c.nan(),
        0 <= n <= 32768,
    ensures
        ({
            let x = c.times_spec(Single::of(n));
            &&& x.finite()
            &&& 0 <= x.value() <= n * pow2(149)
        }),
{
    let a = Single::of(n);
    let one = Single { bits: ONE };
    let x = c.times_spec(a);
    lemma_of_exact(n as nat);
    lemma_one();
    lemma_infinity_units();
    assert(c.finite());
    if n > 0 {
        assert(n * pow2(149) > 0) by (nonlinear_arith)
            requires
                n > 0,
                pow2(149) > 0,
        ;
        lemma_times_order(c, one, a);
        law_times_commutes(one, a);
        law_times_one(a);
        lemma_times_non_negative(c, a);
    } else {
        lemma_magnitude_zero();
        assert(0 * pow2(149) == 0);
        lemma_no_units(a);
        law_times_commutes(c, a);
        law_times_nothing(a, c);
    }
    assert(n * pow2(149) <= 32768 * pow2(149)) by (nonlinear_arith)
        requires
            n <= 32768,
            pow2(149) > 0,
    ;
    if !x.finite() {
        lemma_finite_or_infinite(x);
        lemma_pow2_adds(15, 149);
        lemma_pow2_strictly_increases(164, 277);
        assert(pow2(15) == 32768) by {
            lemma2_to64();
        }
    }
}

/// A straight channel with alpha is at most alpha.
pub proof fn lemma_loaded(c: Single, alpha: int)
    requires
        in_unit(c),
        0 <= alpha <= 32768,
    ensures
        0 <= loaded(c, alpha) <= alpha,
{
    let half = Single { bits: HALF };
    let x = c.times_spec(Single::of(alpha));
    if c.nan() {
        lemma_nan_factors(c, Single::of(alpha));
        lemma_nan_terms(x, half);
    } else {
        lemma_share(c, alpha);
        lemma_half_value();
        lemma_plus_value(x, half);
        assert(2 * (alpha * pow2(149) + pow2(148)) == (2 * alpha + 1) * pow2(149))
            by (nonlinear_arith)
            requires
                pow2(149) == 2 * pow2(148),
        ;
        lemma_rounded_to_half(x.value() + half.value(), alpha);
        lemma_cut_to(x.plus_spec(half), alpha);
    }
}

/// How far a product with an integer can be rounded up.
proof fn lemma_product_error(c: Single, n: int)
    requires
        in_unit(c),
        !c.nan(),
        0 <= n <= 32768,
    ensures
        c.times_spec(Single::of(n)).value() * 0x100_0000 <= (c.value() * n) * 0x100_0001
            + 0x80_0000,
{
    let a = Single::of(n);
    let x = c.times_spec(a);
    let d = pow2(149);
    lemma_share(c, n);
    lemma_of_exact(n as nat);
    lemma_one();
    lemma_infinity_units();
    reveal(Single::times_spec);
    let m = c.units() * a.units();
    assert(pow2(23) == 0x80_0000) by {
        lemma2_to64();
    }
    lemma_code_error(m, d, 24);
    let y = magnitude(nearest(m, d), 24);
    assert(x.units() == y);
    assert(y * 0x100_0000 <= (c.units() * n) * 0x100_0001 + 0x80_0000) by (nonlinear_arith)
        requires
            2 * (y * d) * 0x80_0000 <= 2 * m * 0x80_0000 + m + d * 0x80_0000,
            m == c.units() * (n * d),
            d > 0,
    ;
    assert(c.value() >= 0);
    assert(c.value() == c.units());
    assert(x.value() == y || y == 0);
}

/// How far the rest of a share can be rounded up.
proof fn lemma_rest_error(c: Single)
    requires
        in_unit(c),
        !c.nan(),
    ensures
        ({
            let r = (Single { bits: ONE }).minus_spec(c);
            &&& in_unit(r)
            &&& !r.nan()
            &&& (r.value() + c.value()) * 0x100_0000 <= pow2(149) * 0x100_0001 + 0x80_0000
        }),
{
    let one = Single { bits: ONE };
    let r = one.minus_spec(c);
    lemma_one();
    lemma_infinity_units();
    lemma_rest_in_unit(c);
    let less = c.negate_spec();
    lemma_negate(c);
    lemma_plus_value(one, less);
    let v = (pow2(149) - c.value()) as nat;
    assert(pow2(23) == 0x80_0000) by {
        lemma2_to64();
    }
    lemma_code_error(v, 1, 24);
    assert(magnitude(nearest(v, 1), 24) * 0x100_0000 <= v * 0x100_0001 + 0x80_0000) by {
        assert(code(v, 1, 24) < INFINITY) by {
            lemma_nearest_at_most(v, 1, ONE as nat);
        }
    }
}

/// A channel that is spectral for a share and additive for the rest is at most
/// what bounds both parts.
pub proof fn lemma_faded(additive: int, spectral: Single, share: Single, alpha: int, top: int)
    requires
        in_unit(spectral),
        in_unit(share),
        0 <= additive <= top <= 32768,
        0 <= alpha <= top,
    ensures
        0 <= faded(additive, spectral, share, alpha) <= top,
{
    let one = Single { bits: ONE };
    let rest = one.minus_spec(share);
    let x = rest.times_spec(Single::of(additive));
    let q = share.times_spec(spectral);
    let y = q.times_spec(Single::of(alpha));
    let z = x.plus_spec(y);
    if share.nan() || spectral.nan() {
        if share.nan() {
            lemma_nan_terms(one, share);
            lemma_nan_factors(rest, Single::of(additive));
        } else {
            lemma_nan_factors(share, spectral);
            lemma_nan_factors(q, Single::of(alpha));
        }
        lemma_nan_terms(x, y);
        assert(z.truncated() == 0);
    } else {
        lemma_one();
        lemma_infinity_units();
        lemma_rest_error(share);
        lemma_share(rest, additive);
        lemma_times_in_unit(share, spectral);
        assert(!q.nan() && q.value() <= share.value()) by {
            lemma_part_of_share(share, spectral);
        }
        lemma_share(q, alpha);
        lemma_product_error(rest, additive);
        lemma_product_error(q, alpha);
        let u = pow2(149) as int;
        let (r, s, t) = (rest.value(), share.value(), q.value());
        assert(u >= 0x1_0000_0000_0000) by {
            lemma2_to64();
            lemma_pow2_strictly_increases(64, 149);
        }
        lemma_faded_sum(r, s, t, additive, alpha, top, x.value(), y.value(), u);
        lemma_plus_value(x, y);
        lemma_rounded_to_half(x.value() + y.value(), top);
        lemma_cut_to(z, top);
    }
}

/// A part of a share is no more than the share.
proof fn lemma_part_of_share(share: Single, part: Single)
    requires
        in_unit(share),
        in_unit(part),
        !share.nan(),
        !part.nan(),
    ensures
        !share.times_spec(part).nan(),
        share.times_spec(part).value() <= share.value(),
{
    let one = Single { bits: ONE };
    lemma_one();
    lemma_infinity_units();
    law_times_commutes(share, part);
    if share.value() > 0 {
        lemma_times_order(part, one, share);
        law_times_commutes(one, share);
        law_times_one(share);
    } else {
        lemma_no_units(share);
        law_times_nothing(share, part);
        lemma_no_units(share.times_spec(part));
        assert(share.times_spec(part).units() == 0);
        reveal(Single::times_spec);
    }
}

/// The arithmetic of a fading sum, in units.
proof fn lemma_faded_sum(
    r: int,
    s: int,
    t: int,
    additive: int,
    alpha: int,
    top: int,
    x: int,
    y: int,
    u: int,
)
    requires
        0 <= r,
        0 <= t <= s,
        0 <= additive <= top <= 32768,
        0 <= alpha <= top,
        x * 0x100_0000 <= (r * additive) * 0x100_0001 + 0x80_0000,
        y * 0x100_0000 <= (t * alpha) * 0x100_0001 + 0x80_0000,
        (r + s) * 0x100_0000 <= u * 0x100_0001 + 0x80_0000,
        u >= 0x1_0000_0000_0000,
    ensures
        2 * (x + y) <= (2 * top + 1) * u,
{
    let m = r * top;
    let n = s * top;
    let w = top * u;
    assert(r * additive <= m && t * alpha <= n) by (nonlinear_arith)
        requires
            0 <= r,
            0 <= t <= s,
            0 <= additive <= top,
            0 <= alpha <= top,
            m == r * top,
            n == s * top,
    ;
    assert((m + n) * 0x100_0000 <= w * 0x100_0001 + top * 0x80_0000) by (nonlinear_arith)
        requires
            (r + s) * 0x100_0000 <= u * 0x100_0001 + 0x80_0000,
            m == r * top,
            n == s * top,
            w == top * u,
            top >= 0,
    ;
    assert(w <= 32768 * u && (2 * top + 1) * u == 2 * w + u) by (nonlinear_arith)
        requires
            w == top * u,
            0 <= top <= 32768,
            u >= 0,
    ;
    assert((x + y) * 0x100_0000 <= (m + n) * 0x100_0001 + 0x100_0000);
}

/// The colour of a mix is in range, or no number.
proof fn lemma_pigment(bands: Seq<Single>, p: Rgba, share: Single)
    ensures
        in_unit(pigment(bands, p, share).0),
        in_unit(pigment(bands, p, share).1),
        in_unit(pigment(bands, p, share).2),
{
    lemma_seen(
        blended(
            bands,
            pixel_spectrum(p),
            share,
            (Single { bits: ONE }).minus_spec(share),
        ),
    );
}

/// The colour of a spectrum is in range, or no number.
pub proof fn lemma_seen(bands: Seq<Single>)
    ensures
        in_unit(seen(bands).0),
        in_unit(seen(bands).1),
        in_unit(seen(bands).2),
{
    lemma_channel(TO_RED@, bands);
    lemma_channel(TO_GREEN@, bands);
    lemma_channel(TO_BLUE@, bands);
}

proof fn lemma_channel(row: Seq<u32>, bands: Seq<Single>)
    ensures
        in_unit(channel(row, bands)),
{
    let e = Single { bits: WGM_EPSILON };
    lemma_unit_in_unit(
        weighed(row, bands, 10).minus_spec(e).over_spec(
            (Single { bits: ONE }).minus_spec(e),
        ),
    );
}

/// Colouring keeps channels below any bound that holds of them and of alpha.
proof fn lemma_coloured(p: Rgba, mask: int, s: Source, opacity: int, top: int)
    requires
        fits(mask, opacity),
        0 <= p.r <= top,
        0 <= p.g <= top,
        0 <= p.b <= top,
        0 <= p.a <= top <= 32768,
    ensures
        ({
            let q = colorize(p, mask, s, opacity);
            &&& 0 <= q.r <= top
            &&& 0 <= q.g <= top
            &&& 0 <= q.b <= top
        }),
{
    let over = shown(mask, opacity);
    let under = 32768 - over;
    let c = with_luminance(s, straight(p.r, p.a), straight(p.g, p.a), straight(p.b, p.a));
    lemma_shown(mask, opacity);
    law_coloured_stays_in_range(s, straight(p.r, p.a), straight(p.g, p.a), straight(p.b, p.a));
    lemma_under(c.0, p.a);
    lemma_under(c.1, p.a);
    lemma_under(c.2, p.a);
    lemma_joined(c.0 * p.a / 32768, over, p.r, under, top);
    lemma_joined(c.1 * p.a / 32768, over, p.g, under, top);
    lemma_joined(c.2 * p.a / 32768, over, p.b, under, top);
}

proof fn lemma_under(c: int, a: int)
    requires
        0 <= c <= 32768,
        0 <= a <= 32768,
    ensures
        0 <= c * a / 32768 <= a,
{
    assert(0 <= c * a <= 32768 * a) by (nonlinear_arith)
        requires
            0 <= c <= 32768,
            0 <= a,
    ;
}

/// Every mode but posterizing keeps pixels premultiplied.
pub proof fn law_modes_keep_pixels_premultiplied(
    p: Rgba,
    mask: int,
    s: Source,
    bands: Seq<Single>,
    color_a: int,
    opacity: int,
)
    requires
        premultiplied(p),
        s.wf(),
        fits(mask, opacity),
        0 <= color_a <= 32768,
    ensures
        premultiplied(normal(p, mask, s, opacity)),
        premultiplied(normal_and_eraser(p, mask, s, color_a, opacity)),
        premultiplied(lock_alpha(p, mask, s, opacity)),
        premultiplied(normal_paint(p, mask, s, bands, opacity)),
        premultiplied(normal_and_eraser_paint(p, mask, s, bands, color_a, opacity)),
        premultiplied(lock_alpha_paint(p, mask, s, bands, opacity)),
        premultiplied(colorize(p, mask, s, opacity)),
{
    law_pixels_stay_premultiplied(p, mask, s, color_a, opacity);
    law_pixels_stay_premultiplied(p, mask, s, color_a, pigment_opacity(opacity));
    lemma_coloured(p, mask, s, opacity, p.a);
    if p.a > 0 {
        lemma_mixed(p, mask, s, bands, opacity);
    }
    let q = normal_and_eraser(p, mask, s, color_a, opacity);
    lemma_fading(p, mask, s, bands, color_a, opacity, q.a);
}

/// Mixing pigments where something is gives a premultiplied pixel.
proof fn lemma_mixed(p: Rgba, mask: int, s: Source, bands: Seq<Single>, opacity: int)
    requires
        ranged(p),
        p.a > 0,
        fits(mask, opacity),
    ensures
        premultiplied(normal_paint(p, mask, s, bands, opacity)),
        premultiplied(lock_alpha_paint(p, mask, s, bands, opacity)),
{
    let cut = shown(mask, pigment_opacity(opacity));
    let under = 32768 - cut;
    lemma_shown(mask, pigment_opacity(opacity));
    lemma_stacked(cut, p.a, under);
    lemma_locked(cut, p.a, 0, 0);
    let alpha = stacked(cut, p.a, under);
    let share = source_share(cut, alpha);
    lemma_pigment(bands, p, share);
    let c = pigment(bands, p, share);
    lemma_loaded(c.0, alpha);
    lemma_loaded(c.1, alpha);
    lemma_loaded(c.2, alpha);
    let over = cut * p.a / 32768;
    let locked = stacked(over, p.a, under);
    let part = source_share(over, locked);
    lemma_pigment(bands, p, part);
    let d = pigment(bands, p, part);
    lemma_loaded(d.0, locked);
    lemma_loaded(d.1, locked);
    lemma_loaded(d.2, locked);
}

/// Fading pigments keep channels below what bounds the joined channels and
/// alpha.
proof fn lemma_fading(
    p: Rgba,
    mask: int,
    s: Source,
    bands: Seq<Single>,
    color_a: int,
    opacity: int,
    top: int,
)
    requires
        ranged(p),
        s.wf(),
        fits(mask, opacity),
        0 <= color_a <= 32768,
        ({
            let q = normal_and_eraser(p, mask, s, color_a, opacity);
            &&& 0 <= q.r <= top
            &&& 0 <= q.g <= top
            &&& 0 <= q.b <= top
            &&& 0 <= q.a <= top <= 32768
        }),
    ensures
        ({
            let q = normal_and_eraser_paint(p, mask, s, bands, color_a, opacity);
            &&& 0 <= q.r <= top
            &&& 0 <= q.g <= top
            &&& 0 <= q.b <= top
            &&& q.a == normal_and_eraser(p, mask, s, color_a, opacity).a
        }),
{
    let q = normal_and_eraser(p, mask, s, color_a, opacity);
    let cut = shown(mask, opacity);
    let under = 32768 - cut;
    let share = pigment_share(p);
    let full = Single { bits: SCALE };
    lemma_unit_in_unit(spectral_share(Single::of(p.a).over_spec(full)));
    let part = source_share(cut, stacked(cut, p.a, under)).times_spec(
        Single::of(color_a).over_spec(full),
    );
    let c = pigment(bands, p, part);
    lemma_pigment(bands, p, part);
    lemma_faded(q.r, c.0, share, q.a, top);
    lemma_faded(q.g, c.1, share, q.a, top);
    lemma_faded(q.b, c.2, share, q.a, top);
    lemma_faded(0, c.0, share, q.a, top);
    lemma_faded(0, c.1, share, q.a, top);
    lemma_faded(0, c.2, share, q.a, top);
}

/// Plain painting, erasing and painting with locked alpha keep channels in
/// range.
proof fn lemma_plain_ranged(p: Rgba, mask: int, s: Source, color_a: int, opacity: int)
    requires
        ranged(p),
        s.wf(),
        fits(mask, opacity),
        0 <= color_a <= 32768,
    ensures
        ranged(normal(p, mask, s, opacity)),
        ranged(normal_and_eraser(p, mask, s, color_a, opacity)),
        ranged(lock_alpha(p, mask, s, opacity)),
{
    let cut = shown(mask, opacity);
    let under = 32768 - cut;
    let over = cut * color_a / 32768;
    let locked = cut * p.a / 32768;
    lemma_shown(mask, opacity);
    lemma_shown(cut, color_a);
    lemma_shown(cut, p.a);
    lemma_stacked(cut, p.a, under);
    lemma_stacked(over, p.a, under);
    lemma_joined(s.r as int, cut, p.r, under, 32768);
    lemma_joined(s.g as int, cut, p.g, under, 32768);
    lemma_joined(s.b as int, cut, p.b, under, 32768);
    lemma_joined(s.r as int, over, p.r, under, 32768);
    lemma_joined(s.g as int, over, p.g, under, 32768);
    lemma_joined(s.b as int, over, p.b, under, 32768);
    lemma_joined(s.r as int, locked, p.r, under, 32768);
    lemma_joined(s.g as int, locked, p.g, under, 32768);
    lemma_joined(s.b as int, locked, p.b, under, 32768);
}

/// Every mode keeps the channels of a pixel in range.
pub proof fn law_modes_keep_channels_in_range(
    p: Rgba,
    mask: int,
    s: Source,
    bands: Seq<Single>,
    color_a: int,
    opacity: int,
    num: int,
)
    requires
        ranged(p),
        s.wf(),
        fits(mask, opacity),
        0 <= color_a <= 32768,
        1 <= num <= 128,
    ensures
        ranged(normal(p, mask, s, opacity)),
        ranged(normal_and_eraser(p, mask, s, color_a, opacity)),
        ranged(lock_alpha(p, mask, s, opacity)),
        ranged(normal_paint(p, mask, s, bands, opacity)),
        ranged(normal_and_eraser_paint(p, mask, s, bands, color_a, opacity)),
        ranged(lock_alpha_paint(p, mask, s, bands, opacity)),
        ranged(colorize(p, mask, s, opacity)),
        ranged(posterize(p, mask, opacity, num)),
{
    lemma_plain_ranged(p, mask, s, color_a, opacity);
    lemma_plain_ranged(p, mask, s, color_a, pigment_opacity(opacity));
    if p.a > 0 {
        lemma_mixed(p, mask, s, bands, opacity);
    }
    lemma_fading(p, mask, s, bands, color_a, opacity, 32768);
    lemma_coloured(p, mask, s, opacity, 32768);
    law_posterize_stays_in_range(p, mask, opacity, num);
}

} // verus!
