//! What a mix of two colours is at its ends, and how light and pigment share it.
//!
//! Values are in units of 2^-149, so that one is 2^149.
use crate::means::{lemma_rest, lemma_same_value, lemma_weighed_sum, proper, size};
use crate::mixing::{law_full_weight_stands_alone, lemma_spectrum_within};
use crate::range::{
    lemma_finite_or_infinite, lemma_nearest_at_most, lemma_no_units, lemma_one, lemma_plus_near,
    lemma_plus_value, lemma_rounded_exact, lemma_rounded_monotone,
};
use crate::single::{
    law_minus_itself, law_times_commutes, law_times_nothing, law_times_one, lemma_infinity_units,
    lemma_nearest_exact, Single, ONE,
};
use crate::spectral::{mixed, raised, spectral_mix, spectral_weight, spectrum};
use vstd::arithmetic::power2::*;
use vstd::prelude::*;

verus! {

/// A colour with alpha whose numbers are from zero to one, and have no sign.
pub open spec fn proper_paint(c: Seq<Single>) -> bool {
    c.len() == 4 && forall|i: int|
        0 <= i < 4 ==> proper(#[trigger] c[i]) && !c[i].negative()
}

/// The alpha of a mix is the mean of the alphas by the weight of the first.
pub proof fn law_mixed_alpha_is_a_mean(
    a: Seq<Single>,
    b: Seq<Single>,
    fac: Single,
    paint: Single,
)
    requires
        proper_paint(a),
        proper_paint(b),
        proper(fac),
    ensures
        ({
            let u = pow2(149) as int;
            let r = mixed(a, b, fac, paint)[3];
            let f = fac.value();
            &&& proper(r)
            &&& size(u * r.value() - (f * a[3].value() + (u - f) * b[3].value())) <= u * pow2(129)
        }),
{
    let u = pow2(149) as int;
    let w = pow2(125) as int;
    let one = Single { bits: ONE };
    let rest = one.minus_spec(fac);
    let sum = fac.times_spec(a[3]).plus_spec(rest.times_spec(b[3]));
    lemma_one();
    lemma_rest(fac);
    lemma_weighed_sum(fac, a[3], rest, b[3]);
    lemma_pow2_unfold(126);
    lemma_pow2_unfold(127);
    lemma_pow2_unfold(128);
    lemma_pow2_unfold(129);
    lemma_pow2_pos(125);
    let (f, x, y, l) = (fac.value(), a[3].value(), b[3].value(), rest.value());
    let want = f * x + (u - f) * y;
    let e = l - (u - f);
    assert(l * y == (u - f) * y + e * y) by (nonlinear_arith)
        requires
            e == l - (u - f),
    ;
    assert(-(u * w) <= e * y <= u * w) by (nonlinear_arith)
        requires
            -w <= e <= w,
            0 <= y <= u,
    ;
    assert(u * (8 * w) == 8 * (u * w) && u * (16 * w) == 16 * (u * w)) by (nonlinear_arith);
    assert(want <= u * u) by (nonlinear_arith)
        requires
            want == f * x + (u - f) * y,
            0 <= f <= u,
            0 <= x <= u,
            0 <= y <= u,
    ;
    if sum.value() > u {
        assert(u * sum.value() >= u * u) by (nonlinear_arith)
            requires
                sum.value() > u,
                u > 0,
        ;
    }
    lemma_no_units(sum);
}

/// Without pigment every channel of a mix is the mean of that channel of both
/// colours by the weight of the first.
pub proof fn law_mix_of_light_is_a_mean(
    a: Seq<Single>,
    b: Seq<Single>,
    fac: Single,
    c: int,
)
    requires
        proper_paint(a),
        proper_paint(b),
        proper(fac),
        0 <= c < 3,
    ensures
        ({
            let u = pow2(149) as int;
            let r = mixed(a, b, fac, Single { bits: 0 })[c];
            let f = fac.value();
            &&& r.finite()
            &&& size(u * r.value() - (f * a[c].value() + (u - f) * b[c].value())) <= u * pow2(129)
        }),
{
    let u = pow2(149) as int;
    let w = pow2(125) as int;
    let one = Single { bits: ONE };
    let zero = Single { bits: 0 };
    let rest = one.minus_spec(fac);
    let linear = a[c].times_spec(fac).plus_spec(b[c].times_spec(rest));
    lemma_one();
    lemma_rest(fac);
    lemma_rest(zero);
    lemma_weighed_sum(a[c], fac, b[c], rest);
    law_times_commutes(one, linear);
    law_times_one(linear);
    law_times_nothing(zero, zero);
    lemma_no_units(zero.times_spec(zero));
    lemma_plus_value(zero.times_spec(zero), linear);
    lemma_rounded_exact(linear);
    let r = mixed(a, b, fac, zero)[c];
    assert(r == zero.times_spec(zero).plus_spec(one.times_spec(linear)));
    lemma_pow2_unfold(126);
    lemma_pow2_unfold(127);
    lemma_pow2_unfold(128);
    lemma_pow2_unfold(129);
    lemma_pow2_pos(125);
    lemma_pow2_strictly_increases(150, 277);
    lemma_pow2_unfold(150);
    lemma_infinity_units();
    if !r.finite() {
        lemma_finite_or_infinite(r);
    }
    let (f, x, y, l) = (fac.value(), a[c].value(), b[c].value(), rest.value());
    let e = l - (u - f);
    assert(y * l == (u - f) * y + e * y) by (nonlinear_arith)
        requires
            e == l - (u - f),
    ;
    assert(x * f == f * x) by (nonlinear_arith);
    assert(-(u * w) <= e * y <= u * w) by (nonlinear_arith)
        requires
            -w <= e <= w,
            0 <= y <= u,
    ;
    assert(u * (8 * w) == 8 * (u * w) && u * (16 * w) == 16 * (u * w)) by (nonlinear_arith);
}

proof fn lemma_raised(c: Seq<Single>)
    requires
        proper_paint(c),
    ensures
        ({
            let s = raised(spectrum(c[0], c[1], c[2]));
            s.len() == 10 && forall|i: int|
                0 <= i < 10 ==> (#[trigger] s[i]).bits <= 0x4900_0000
        }),
{
    lemma_pow2_strictly_increases(149, 165);
    let s = raised(spectrum(c[0], c[1], c[2]));
    assert forall|i: int| 0 <= i < 10 implies (#[trigger] s[i]).bits <= 0x4900_0000 by {
        lemma_spectrum_within(c[0], c[1], c[2], i);
    }
}

/// The weight of a colour with alpha: all of it where the factor is one, none of
/// it where that is zero.
proof fn lemma_end_weights(a: Seq<Single>, b: Seq<Single>)
    requires
        proper_paint(a),
        proper_paint(b),
        a[3].value() > 0,
    ensures
        spectral_weight(a, b, Single { bits: ONE }) == (Single { bits: ONE }),
        b[3].value() + a[3].value() > 0,
        spectral_weight(a, b, Single { bits: 0 }) == (Single { bits: 0 }),
{
    let one = Single { bits: ONE };
    let zero = Single { bits: 0 };
    lemma_one();
    assert(proper(a[3]) && proper(b[3]));
    law_minus_itself(one);
    lemma_rest(zero);
    law_times_commutes(one, a[3]);
    law_times_one(a[3]);
    law_times_one(b[3]);
    // All of it.
    let none = b[3].times_spec(zero);
    law_times_commutes(b[3], zero);
    law_times_nothing(zero, b[3]);
    lemma_no_units(none);
    let all = a[3].plus_spec(none);
    lemma_plus_value(a[3], none);
    lemma_rounded_exact(a[3]);
    lemma_same_value(all, a[3]);
    lemma_no_units(a[3]);
    assert(a[3].over_spec(a[3]) == one) by {
        reveal(Single::over_spec);
        let n = a[3].units() * pow2(149);
        assert(n == (1 * pow2(149)) * a[3].units()) by (nonlinear_arith)
            requires
                n == a[3].units() * pow2(149),
        ;
        lemma_nearest_exact(n, a[3].units(), 1, 149);
        lemma_same_value(a[3].over_spec(a[3]), one);
    }
    // None of it.
    let sum = a[3].plus_spec(b[3]);
    lemma_plus_value(a[3], b[3]);
    lemma_rounded_monotone(a[3].value(), a[3].value() + b[3].value());
    lemma_no_units(sum);
    let top = zero.times_spec(a[3]);
    law_times_nothing(zero, a[3]);
    assert(top == zero) by {
        reveal(Single::times_spec);
    }
    assert(zero.over_spec(sum) == zero) by {
        reveal(Single::over_spec);
        lemma_pow2_unfold(150);
        lemma_pow2_unfold(151);
        lemma_plus_near(a[3], b[3], 151);
        assert(0 * pow2(149) == 0);
        lemma_nearest_at_most(0, sum.units(), 0);
    }
}

/// Of a mix of pigments in which the first has all the weight the second has no
/// part, and of one in which it has none the first has no part.
pub proof fn law_mix_of_pigments_at_its_ends(
    a: Seq<Single>,
    b: Seq<Single>,
    c: Seq<Single>,
)
    requires
        proper_paint(a),
        proper_paint(b),
        proper_paint(c),
        a[3].value() > 0,
        c[3].value() > 0,
    ensures
        spectral_mix(a, b, Single { bits: ONE }) == spectral_mix(a, c, Single { bits: ONE }),
        spectral_mix(a, b, Single { bits: 0 }) == spectral_mix(c, b, Single { bits: 0 }),
        spectral_mix(a, b, Single { bits: ONE }) == spectral_mix(c, a, Single { bits: 0 }),
{
    let one = Single { bits: ONE };
    let zero = Single { bits: 0 };
    lemma_one();
    lemma_end_weights(a, b);
    lemma_end_weights(a, c);
    lemma_end_weights(c, b);
    lemma_end_weights(c, a);
    law_minus_itself(one);
    lemma_rest(zero);
    lemma_raised(a);
    lemma_raised(b);
    lemma_raised(c);
    let (x, y, z) = (
        raised(spectrum(a[0], a[1], a[2])),
        raised(spectrum(b[0], b[1], b[2])),
        raised(spectrum(c[0], c[1], c[2])),
    );
    law_full_weight_stands_alone(x, y, z);
    law_full_weight_stands_alone(y, x, z);
}

} // verus!
