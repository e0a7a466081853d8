//! How a dab divides itself among the blend modes: what is locked, coloured or
//! posterized is not painted, and pigment and light share what is.
//!
//! Values are in units of 2^-149, so that one is 2^149.
use crate::color::unit;
use crate::draw::{fixed, levels, normal_share, painting, passes, rest, source, Pass};
use crate::means::{lemma_proper_product, lemma_rest, lemma_same_value, proper, size};
use crate::range::{
    lemma_finite_or_infinite, lemma_known, lemma_no_units, lemma_one, lemma_times_near,
};
use crate::single::{
    law_times_commutes, law_times_nothing, law_times_one, lemma_infinity_units, Single, ONE,
};
use crate::surface::Dab;
use vstd::arithmetic::div_mod::*;
use vstd::arithmetic::power2::*;
use vstd::prelude::*;

verus! {

/// A fraction in fix15 is the fraction of 32768, within a step and a bit.
pub proof fn law_fixed_is_the_fraction_of_full(v: Single)
    requires
        proper(v),
    ensures
        size(pow2(149) * fixed(v) - 32768 * v.value()) <= pow2(149) + pow2(141),
        v.value() == 0 ==> fixed(v) == 0,
        v.value() == pow2(149) ==> fixed(v) == 32768,
{
    let u = pow2(149) as int;
    let full = Single { bits: 0x4700_0000 };
    let x = v.times_spec(full);
    lemma_one();
    lemma_known(0x4700_0000, 0x80_0000, 141);
    lemma_pow2_adds(8, 141);
    lemma_pow2_adds(15, 149);
    lemma_pow2_adds(16, 149);
    assert(pow2(8) == 256 && pow2(15) == 32768 && pow2(16) == 65536) by {
        lemma2_to64();
    }
    lemma_pow2_pos(141);
    assert(full.value() == 32768 * u);
    let vv = v.value();
    let p = vv * full.value();
    assert(p == 32768 * (vv * u)) by (nonlinear_arith)
        requires
            p == vv * (32768 * u),
    ;
    assert(vv * u <= u * u) by (nonlinear_arith)
        requires
            0 <= vv <= u,
    ;
    assert(p < pow2(165) * pow2(149)) by (nonlinear_arith)
        requires
            p == 32768 * (vv * u),
            vv * u <= u * u,
            pow2(165) == 65536 * u,
            pow2(149) == u,
            u > 0,
    ;
    lemma_times_near(v, full, 165);
    let xv = x.value();
    assert(size(xv - 32768 * vv) <= pow2(141)) by (nonlinear_arith)
        requires
            2 * (xv * u) <= 2 * (32768 * (vv * u)) + u * pow2(141),
            2 * (32768 * (vv * u)) <= 2 * (xv * u) + u * pow2(141),
            size(xv - 32768 * vv) == (if xv - 32768 * vv < 0 {
                -(xv - 32768 * vv)
            } else {
                xv - 32768 * vv
            }),
            u > 0,
    ;
    lemma_fundamental_div_mod(x.units() as int, u);
    lemma_no_units(x);
    let n = x.units() as int / u;
    assert(u * n <= x.units() < u * n + u);
    assert(0 <= n <= 32769) by (nonlinear_arith)
        requires
            u * n <= x.units() < u * n + u,
            0 <= x.units() <= 32768 * u + pow2(141),
            pow2(141) < u,
            u > 0,
    ;
    if x.negative() {
        assert(x.units() == 0);
        lemma_basic_div(0, u);
    }
    assert(fixed(v) == n);
    if vv == u {
        law_times_commutes(v, full);
        lemma_same_value(v, Single { bits: ONE });
        law_times_one(full);
        lemma_div_by_multiple(32768, u);
    }
    if vv == 0 {
        lemma_no_units(v);
        law_times_nothing(v, full);
        lemma_no_units(x);
        lemma_basic_div(0, u);
    }
}

/// The number from zero to one that a channel or a share is held to.
pub open spec fn held_value(v: Single) -> int {
    if v.value() < 0 {
        0
    } else if v.value() > pow2(149) {
        pow2(149) as int
    } else {
        v.value()
    }
}

pub proof fn lemma_held_value(v: Single)
    requires
        !v.nan(),
    ensures
        proper(unit(v)),
        unit(v).value() == held_value(v),
{
    lemma_one();
    lemma_infinity_units();
    if !unit(v).finite() {
        lemma_finite_or_infinite(unit(v));
    }
}

/// The source of a dab has, channel by channel, the colour of the dab.
pub proof fn law_source_is_the_colour_of_the_dab(dab: Dab)
    requires
        !dab.color.r.nan(),
        !dab.color.g.nan(),
        !dab.color.b.nan(),
    ensures
        ({
            let s = source(dab);
            let near = pow2(149) + pow2(141);
            &&& size(pow2(149) * s.r - 32768 * held_value(dab.color.r)) <= near
            &&& size(pow2(149) * s.g - 32768 * held_value(dab.color.g)) <= near
            &&& size(pow2(149) * s.b - 32768 * held_value(dab.color.b)) <= near
        }),
{
    lemma_held_value(dab.color.r);
    lemma_held_value(dab.color.g);
    lemma_held_value(dab.color.b);
    law_fixed_is_the_fraction_of_full(unit(dab.color.r));
    law_fixed_is_the_fraction_of_full(unit(dab.color.g));
    law_fixed_is_the_fraction_of_full(unit(dab.color.b));
}

/// One more factor of a product that is close to an exact one: `k` is the power
/// of one that the exact product has too many.
proof fn lemma_chain(k: int, x: Single, exact: int, e: int, f: Single, factor: int)
    requires
        k > 0,
        proper(x),
        proper(f),
        0 <= exact <= k * pow2(149),
        e >= 0,
        size(k * x.value() - exact) <= k * e,
        0 <= factor <= pow2(149),
        size(f.value() - factor) <= pow2(126),
    ensures
        proper(x.times_spec(f)),
        0 <= exact * factor <= (k * pow2(149)) * pow2(149),
        size((k * pow2(149)) * x.times_spec(f).value() - exact * factor) <= (k * pow2(149)) * (e
            + pow2(127)),
{
    let u = pow2(149) as int;
    let w = pow2(126) as int;
    let y = x.times_spec(f);
    lemma_proper_product(x, f);
    lemma_pow2_unfold(127);
    lemma_one();
    let (xv, fv, yv) = (x.value(), f.value(), y.value());
    let a = u * yv - xv * fv;
    let b = k * xv - exact;
    let c = fv - factor;
    let ku = k * u;
    assert(k * a == ku * yv - k * (xv * fv)) by (nonlinear_arith)
        requires
            a == u * yv - xv * fv,
            ku == k * u,
    ;
    assert(b * fv == k * (xv * fv) - exact * fv) by (nonlinear_arith)
        requires
            b == k * xv - exact,
    ;
    assert(exact * c == exact * fv - exact * factor) by (nonlinear_arith)
        requires
            c == fv - factor,
    ;
    assert(size(k * a) <= ku * w) by {
        lemma_size_of_product(a, k, u * w);
        assert(k * (u * w) == ku * w) by (nonlinear_arith)
            requires
                ku == k * u,
        ;
        assert(a * k == k * a) by (nonlinear_arith);
    }
    assert(size(b * fv) <= ku * e) by {
        lemma_size_of_product(b, fv, k * e);
        assert(fv * (k * e) <= ku * e) by (nonlinear_arith)
            requires
                0 <= fv <= u,
                ku == k * u,
                k > 0,
                e >= 0,
        ;
    }
    assert(size(exact * c) <= ku * w) by {
        lemma_size_of_product(c, exact, w);
        assert(exact * w <= ku * w) by (nonlinear_arith)
            requires
                exact <= ku,
                w >= 0,
        ;
        assert(c * exact == exact * c) by (nonlinear_arith);
    }
    assert(ku * (e + 2 * w) == ku * e + 2 * (ku * w)) by (nonlinear_arith);
    assert(0 <= exact * factor <= ku * u) by (nonlinear_arith)
        requires
            0 <= exact <= ku,
            0 <= factor <= u,
    ;
}

proof fn lemma_size_of_product(x: int, y: int, a: int)
    requires
        size(x) <= a,
        y >= 0,
    ensures
        size(x * y) <= y * a,
{
    assert(size(x * y) <= y * a) by (nonlinear_arith)
        requires
            y >= 0,
            size(x) <= a,
            size(x) == (if x < 0 {
                -x
            } else {
                x
            }),
            size(x * y) == (if x * y < 0 {
                -(x * y)
            } else {
                x * y
            }),
    ;
}

/// One, to the power of `n`, in units.
pub open spec fn ones(n: nat) -> int
    decreases n,
{
    if n == 0 {
        1
    } else {
        ones((n - 1) as nat) * pow2(149)
    }
}

/// Whether an opacity in fix15 is that of a product of `n` numbers from zero to
/// one, within two steps.
pub open spec fn opacity_of(opacity: u32, product: int, n: nat) -> bool {
    size(ones(n) * opacity - 32768 * product) <= 2 * ones(n)
}

/// A number that is close to a product, in fix15.
proof fn lemma_opacity_of(x: Single, product: int, k: nat, e: int)
    requires
        proper(x),
        size(ones(k) * x.value() - product) <= ones(k) * e,
        0 <= e <= 8 * pow2(127),
    ensures
        opacity_of(fixed(x), product, k + 1),
{
    let u = pow2(149) as int;
    let q = ones(k);
    law_fixed_is_the_fraction_of_full(x);
    lemma_ones(k);
    lemma_one();
    lemma_pow2_unfold(128);
    lemma_pow2_unfold(129);
    lemma_pow2_unfold(130);
    lemma_pow2_adds(15, 130);
    lemma_pow2_adds(8, 141);
    lemma_pow2_adds(4, 145);
    lemma_pow2_pos(130);
    lemma_pow2_pos(141);
    assert(pow2(15) == 32768 && pow2(8) == 256 && pow2(4) == 16) by {
        lemma2_to64();
    }
    let o = fixed(x) as int;
    let a = u * o - 32768 * x.value();
    let b = q * x.value() - product;
    assert((q * u) * o - 32768 * product == q * a + 32768 * b) by (nonlinear_arith)
        requires
            a == u * o - 32768 * x.value(),
            b == q * x.value() - product,
    ;
    assert(size(q * a) <= q * (u + pow2(141))) by {
        lemma_size_of_product(a, q, u + pow2(141));
        assert(a * q == q * a) by (nonlinear_arith);
    }
    assert(32768 * (q * e) <= q * pow2(145)) by (nonlinear_arith)
        requires
            32768 * e <= pow2(145),
            q > 0,
    ;
    assert(q * (u + pow2(141)) + q * pow2(145) <= 2 * (q * u)) by (nonlinear_arith)
        requires
            pow2(141) + pow2(145) <= u,
            q > 0,
    ;
    assert(ones(k + 1) == q * u);
}

pub proof fn lemma_ones(n: nat)
    ensures
        ones(n) > 0,
    decreases n,
{
    lemma_one();
    if n > 0 {
        lemma_ones((n - 1) as nat);
        let q = ones((n - 1) as nat);
        assert(q * pow2(149) > 0) by (nonlinear_arith)
            requires
                q > 0,
                pow2(149) > 0,
        ;
    }
}

/// A dab whose shares are numbers.
pub open spec fn numbered(dab: Dab) -> bool {
    &&& !dab.opaque.nan()
    &&& !dab.lock_alpha.nan()
    &&& !dab.colorize.nan()
    &&& !dab.posterize.nan()
    &&& !dab.paint.nan()
    &&& !dab.alpha_eraser.nan()
}

/// The opacity of the pass that paints, for a share of the dab.
proof fn lemma_painting_opacity(dab: Dab, share: Single, part: int)
    requires
        numbered(dab),
        proper(share),
        0 <= part <= pow2(149),
        size(share.value() - part) <= pow2(126),
    ensures
        ({
            let u = pow2(149) as int;
            let (l, c, p) = (
                u - held_value(dab.lock_alpha),
                u - held_value(dab.colorize),
                u - held_value(dab.posterize),
            );
            opacity_of(
                fixed(normal_share(dab).times_spec(unit(dab.opaque)).times_spec(share)),
                l * c * p * held_value(dab.opaque) * part,
                5,
            )
        }),
{
    let u = pow2(149) as int;
    let (l, c, p, o) = (
        u - held_value(dab.lock_alpha),
        u - held_value(dab.colorize),
        u - held_value(dab.posterize),
        held_value(dab.opaque),
    );
    lemma_one();
    lemma_pow2_unfold(126);
    lemma_pow2_unfold(127);
    lemma_held_value(dab.lock_alpha);
    lemma_held_value(dab.colorize);
    lemma_held_value(dab.posterize);
    lemma_held_value(dab.opaque);
    lemma_rest(unit(dab.lock_alpha));
    lemma_rest(unit(dab.colorize));
    lemma_rest(unit(dab.posterize));
    let r1 = rest(unit(dab.lock_alpha));
    let r2 = rest(unit(dab.colorize));
    let r3 = rest(unit(dab.posterize));
    let w = pow2(127) as int;
    reveal_with_fuel(ones, 6);
    assert(1 * r1.value() == r1.value() && 1 * w == w && 1 * u == u);
    lemma_pow2_pos(125);
    lemma_chain(1, r1, l, w, r2, c);
    lemma_ones(1);
    lemma_ones(2);
    lemma_ones(3);
    lemma_chain(ones(1), r1.times_spec(r2), l * c, 2 * w, r3, p);
    lemma_chain(ones(2), normal_share(dab), l * c * p, 3 * w, unit(dab.opaque), o);
    lemma_chain(
        ones(3),
        normal_share(dab).times_spec(unit(dab.opaque)),
        l * c * p * o,
        4 * w,
        share,
        part,
    );
    lemma_opacity_of(
        normal_share(dab).times_spec(unit(dab.opaque)).times_spec(share),
        l * c * p * o * part,
        4,
        5 * w,
    );
}

/// The opacity of the pass that paints with locked alpha, for a share of the
/// dab.
proof fn lemma_locked_opacity(dab: Dab, share: Single, part: int)
    requires
        numbered(dab),
        proper(share),
        0 <= part <= pow2(149),
        size(share.value() - part) <= pow2(126),
    ensures
        ({
            let u = pow2(149) as int;
            let (c, p) = (u - held_value(dab.colorize), u - held_value(dab.posterize));
            opacity_of(
                fixed(
                    unit(dab.lock_alpha).times_spec(unit(dab.opaque)).times_spec(
                        rest(unit(dab.colorize)),
                    ).times_spec(rest(unit(dab.posterize))).times_spec(share),
                ),
                held_value(dab.lock_alpha) * held_value(dab.opaque) * c * p * part,
                5,
            )
        }),
{
    let u = pow2(149) as int;
    let (l, c, p, o) = (
        held_value(dab.lock_alpha),
        u - held_value(dab.colorize),
        u - held_value(dab.posterize),
        held_value(dab.opaque),
    );
    lemma_one();
    lemma_pow2_unfold(126);
    lemma_pow2_unfold(127);
    lemma_held_value(dab.lock_alpha);
    lemma_held_value(dab.colorize);
    lemma_held_value(dab.posterize);
    lemma_held_value(dab.opaque);
    lemma_rest(unit(dab.colorize));
    lemma_rest(unit(dab.posterize));
    let x1 = unit(dab.lock_alpha);
    let x2 = x1.times_spec(unit(dab.opaque));
    let x3 = x2.times_spec(rest(unit(dab.colorize)));
    let x4 = x3.times_spec(rest(unit(dab.posterize)));
    let w = pow2(127) as int;
    reveal_with_fuel(ones, 6);
    assert(1 * x1.value() == x1.value() && 1 * w == w && 1 * u == u);
    lemma_pow2_pos(125);
    lemma_chain(1, x1, l, w, unit(dab.opaque), o);
    lemma_ones(1);
    lemma_ones(2);
    lemma_ones(3);
    lemma_chain(ones(1), x2, l * o, 2 * w, rest(unit(dab.colorize)), c);
    lemma_chain(ones(2), x3, l * o * c, 3 * w, rest(unit(dab.posterize)), p);
    lemma_chain(ones(3), x4, l * o * c * p, 4 * w, share, part);
    lemma_opacity_of(x4.times_spec(share), l * o * c * p * part, 4, 5 * w);
}

/// The opacity of a pass that comes after painting.
proof fn lemma_after_opacity(dab: Dab, v: Single)
    requires
        numbered(dab),
        !v.nan(),
    ensures
        opacity_of(
            fixed(unit(v).times_spec(unit(dab.opaque))),
            held_value(v) * held_value(dab.opaque),
            2,
        ),
{
    let u = pow2(149) as int;
    let w = pow2(127) as int;
    lemma_one();
    lemma_held_value(v);
    lemma_held_value(dab.opaque);
    reveal_with_fuel(ones, 3);
    assert(1 * unit(v).value() == unit(v).value() && 1 * w == w && 1 * u == u);
    lemma_pow2_pos(126);
    lemma_pow2_pos(127);
    lemma_pow2_unfold(127);
    lemma_chain(1, unit(v), held_value(v), w, unit(dab.opaque), held_value(dab.opaque));
    lemma_opacity_of(
        unit(v).times_spec(unit(dab.opaque)),
        held_value(v) * held_value(dab.opaque),
        1,
        2 * w,
    );
}

/// What a pass of a dab has to be: painting what is neither locked, coloured nor
/// posterized, painting with locked alpha what is locked and neither of the
/// others, each by the share of light or of pigment, and colouring and
/// posterizing by their own shares; all of it by the opacity of the dab.
#[verifier::opaque]
pub open spec fn fits_dab(pass: Pass, dab: Dab) -> bool {
    let u = pow2(149) as int;
    let (lock, color, post) = (
        held_value(dab.lock_alpha),
        held_value(dab.colorize),
        held_value(dab.posterize),
    );
    let (o, t, a) = (held_value(dab.opaque), held_value(dab.paint), held_value(dab.alpha_eraser));
    let free = (u - lock) * (u - color) * (u - post) * o;
    let locked = lock * o * (u - color) * (u - post);
    let alpha = |n: u32| size(u * n - 32768 * a) <= u + pow2(141);
    match pass {
        Pass::Normal { opacity } => a == u && opacity_of(opacity, free * (u - t), 5),
        Pass::NormalPaint { opacity } => a == u && opacity_of(opacity, free * t, 5),
        Pass::NormalAndEraser { color_a, opacity } => a < u && alpha(color_a) && opacity_of(
            opacity,
            free * (u - t),
            5,
        ),
        Pass::NormalAndEraserPaint { color_a, opacity } => a < u && alpha(color_a) && opacity_of(
            opacity,
            free * t,
            5,
        ),
        Pass::LockAlpha { opacity } => a > 0 && lock > 0 && opacity_of(
            opacity,
            locked * (u - t),
            5,
        ),
        Pass::LockAlphaPaint { opacity } => a > 0 && lock > 0 && opacity_of(opacity, locked * t, 5),
        Pass::Colorize { opacity } => color > 0 && opacity_of(opacity, color * o, 2),
        Pass::Posterize { opacity, num } => post > 0 && opacity_of(opacity, post * o, 2) && num
            == levels(dab),
    }
}

/// The passes that paint.
proof fn lemma_painting_fits(dab: Dab, share: Single, pigment: bool, i: int)
    requires
        numbered(dab),
        proper(share),
        0 <= i < painting(dab, share, pigment).len(),
        ({
            let u = pow2(149) as int;
            let t = held_value(dab.paint);
            size(share.value() - (if pigment {
                t
            } else {
                u - t
            })) <= pow2(126)
        }),
    ensures
        fits_dab(painting(dab, share, pigment)[i], dab),
{
    reveal(fits_dab);
    let u = pow2(149) as int;
    let t = held_value(dab.paint);
    let part = if pigment {
        t
    } else {
        u - t
    };
    lemma_one();
    lemma_held_value(dab.alpha_eraser);
    lemma_held_value(dab.lock_alpha);
    lemma_painting_opacity(dab, share, part);
    lemma_locked_opacity(dab, share, part);
    law_fixed_is_the_fraction_of_full(unit(dab.alpha_eraser));
}

/// The passes that come after painting.
proof fn lemma_after_fits(dab: Dab)
    requires
        numbered(dab),
    ensures
        held_value(dab.colorize) > 0 ==> fits_dab(
            Pass::Colorize { opacity: fixed(unit(dab.colorize).times_spec(unit(dab.opaque))) },
            dab,
        ),
        held_value(dab.posterize) > 0 ==> fits_dab(
            Pass::Posterize {
                opacity: fixed(unit(dab.posterize).times_spec(unit(dab.opaque))),
                num: levels(dab),
            },
            dab,
        ),
{
    reveal(fits_dab);
    lemma_after_opacity(dab, dab.colorize);
    lemma_after_opacity(dab, dab.posterize);
}

/// Every pass of a dab takes the portion of the dab that is its own.
pub proof fn law_passes_take_their_portions(dab: Dab, i: int)
    requires
        numbered(dab),
        0 <= i < passes(dab).len(),
    ensures
        fits_dab(passes(dab)[i], dab),
{
    let one = Single { bits: ONE };
    let zero = Single { bits: 0 };
    let paint = unit(dab.paint);
    lemma_one();
    lemma_held_value(dab.paint);
    lemma_held_value(dab.colorize);
    lemma_held_value(dab.posterize);
    lemma_rest(paint);
    lemma_pow2_unfold(126);
    lemma_pow2_pos(125);
    let first = if paint.lt_spec(one) {
        painting(dab, rest(paint), false)
    } else {
        seq![]
    };
    let second = if zero.lt_spec(paint) {
        painting(dab, paint, true)
    } else {
        seq![]
    };
    lemma_after_fits(dab);
    if i < first.len() {
        assert(passes(dab)[i] == first[i]);
        lemma_painting_fits(dab, rest(paint), false, i);
    } else if i < first.len() + second.len() {
        assert(passes(dab)[i] == second[i - first.len()]);
        lemma_painting_fits(dab, paint, true, i - first.len());
    }
}

/// Every portion of a dab has its pass: what is locked, by light and by pigment,
/// what is coloured, what is posterized, which comes last, and where there is
/// none of these what is painted.
pub proof fn law_portions_have_their_passes(dab: Dab)
    requires
        numbered(dab),
    ensures
        ({
            let u = pow2(149) as int;
            let ps = passes(dab);
            let (lock, color, post) = (
                held_value(dab.lock_alpha),
                held_value(dab.colorize),
                held_value(dab.posterize),
            );
            let (t, a) = (held_value(dab.paint), held_value(dab.alpha_eraser));
            &&& lock > 0 && a > 0 && t < u ==> exists|i: int|
                0 <= i < ps.len() && (#[trigger] ps[i]) is LockAlpha
            &&& lock > 0 && a > 0 && t > 0 ==> exists|i: int|
                0 <= i < ps.len() && (#[trigger] ps[i]) is LockAlphaPaint
            &&& color > 0 ==> exists|i: int| 0 <= i < ps.len() && (#[trigger] ps[i]) is Colorize
            &&& post > 0 ==> ps.len() > 0 && ps.last() is Posterize
            &&& lock == 0 && color == 0 && post == 0 && t < u ==> ps.len() > 0 && (if a == u {
                ps[0] is Normal
            } else {
                ps[0] is NormalAndEraser
            })
            &&& lock == 0 && color == 0 && post == 0 && t > 0 ==> ps.len() > 0 && (if a == u {
                ps.last() is NormalPaint
            } else {
                ps.last() is NormalAndEraserPaint
            })
        }),
{
    let one = Single { bits: ONE };
    let zero = Single { bits: 0 };
    let paint = unit(dab.paint);
    lemma_one();
    lemma_held_value(dab.paint);
    lemma_held_value(dab.colorize);
    lemma_held_value(dab.posterize);
    lemma_held_value(dab.lock_alpha);
    lemma_held_value(dab.alpha_eraser);
    let first = if paint.lt_spec(one) {
        painting(dab, rest(paint), false)
    } else {
        seq![]
    };
    let second = if zero.lt_spec(paint) {
        painting(dab, paint, true)
    } else {
        seq![]
    };
    let ps = passes(dab);
    let (n, k) = (first.len() as int, second.len() as int);
    assert forall|i: int| 0 <= i < n implies ps[i] == first[i] by {}
    assert forall|i: int| 0 <= i < k implies ps[n + i] == second[i] by {}
    if held_value(dab.lock_alpha) > 0 && held_value(dab.alpha_eraser) > 0 {
        if paint.lt_spec(one) {
            assert(ps[n - 1] is LockAlpha);
        }
        if zero.lt_spec(paint) {
            assert(ps[n + (k - 1)] is LockAlphaPaint);
        }
    }
    if held_value(dab.colorize) > 0 {
        assert(ps[n + k] is Colorize);
    }
    if held_value(dab.lock_alpha) == 0 && held_value(dab.colorize) == 0 && held_value(
        dab.posterize,
    ) == 0 {
        lemma_rest(unit(dab.lock_alpha));
        lemma_rest(unit(dab.colorize));
        lemma_rest(unit(dab.posterize));
        law_times_one(one);
        assert(normal_share(dab) == one);
        if paint.lt_spec(one) {
            assert(ps[0] == first[0]);
        }
        if zero.lt_spec(paint) {
            assert(ps[n + 0] == second[0]);
        }
    }
}

} // verus!
