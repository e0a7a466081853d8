//! Pigment mixing in ten spectral bands.
//!
//! Colours are upsampled to ten reflectances, mixed by a weighted geometric
//! mean, and downsampled again.  That way blue and yellow make green.
use crate::color::{to_unit, unit};
use crate::means::lemma_same_value;
use crate::range::{
    lemma_finite_or_infinite, lemma_infinite_term, lemma_known, lemma_nearest_at_least,
    lemma_nearest_at_most, lemma_negate, lemma_no_units, lemma_one, lemma_plus_at_least,
    lemma_plus_value, lemma_rounded_exact, lemma_rounded_monotone, rounded,
};
use crate::rounding::magnitude;
use crate::single::{
    law_plus_nothing, law_times_commutes, law_times_nothing, law_times_one, lemma_infinity_units,
    lemma_nearest_exact, lemma_plus_commutes, Single, HALF, ONE,
};
use vstd::arithmetic::power2::*;
use vstd::prelude::*;

verus! {

/// Keeps reflectances away from zero: 0.001.
pub const WGM_EPSILON: u32 = 0x3a83_126f;

/// The reflectance of pure red in each of the ten bands.
pub const SPECTRAL_R: [u32; 10] = [
    0x3c18_10db,
    0x3c1f_7599,
    0x3c38_63c2,
    0x3c77_7d64,
    0x3ccb_2504,
    0x3dab_4251,
    0x3f7a_555d,
    0x3f80_0000,
    0x3f7f_fd72,
    0x3f80_0000,
];

/// The reflectance of pure green in each band.
pub const SPECTRAL_G: [u32; 10] = [
    0x3b3b_0c50,
    0x3b80_5f20,
    0x3c46_c5ef,
    0x3f3f_8dea,
    0x3f80_0000,
    0x3f5d_9e40,
    0x3d19_81fa,
    0x3cba_ea47,
    0x3cb2_27a5,
    0x3caf_2f79,
];

/// The reflectance of pure blue in each band.
pub const SPECTRAL_B: [u32; 10] = [
    0x3f09_7c40,
    0x3f0b_f105,
    0x3f13_5416,
    0x3e84_7ea9,
    0x3d2a_d806,
    0x3c4f_76f5,
    0x3bf5_49b5,
    0x3bdd_bce0,
    0x3bdb_89b3,
    0x3bda_c431,
];

/// What each band adds to red.
pub const TO_RED: [u32; 10] = [
    0x3cd9_df0f,
    0x3d4b_e583,
    0x3cb7_e8c0,
    0xbe5f_b253,
    0xbe83_87ba,
    0x3ee4_4a9c,
    0x3f45_b9c5,
    0x3e47_2aaf,
    0x3c66_004d,
    0x3bfb_e573,
];

/// What each band adds to green.
pub const TO_GREEN: [u32; 10] = [
    0xbd05_8955,
    0xbd79_f134,
    0xbd56_ffc1,
    0x3e53_9e71,
    0x3f12_8f1f,
    0x3ea2_bb90,
    0xbcad_ce7c,
    0xbc9e_d2e3,
    0xbac7_67ab,
    0xba5a_f017,
];

/// What each band adds to blue.
pub const TO_BLUE: [u32; 10] = [
    0x3ead_cfbb,
    0x3f22_a9aa,
    0x3f45_8263,
    0x3de7_e146,
    0xbd62_4efe,
    0xbd45_850a,
    0xbc54_7224,
    0xbac7_babb,
    0xb8c6_a3d9,
    0xb858_7203,
];

/// `log2(x)`, approximately, from the pattern of `x`.
pub open spec fn fastlog2_spec(x: Single) -> Single {
    let mx = Single { bits: (x.bits % 0x80_0000 + 0x3f00_0000) as u32 };
    let y = Single::from_u32_spec(x.bits).times_spec(Single { bits: 0x3400_0000 });
    y.minus_spec(Single { bits: 0x42f8_7377 }).minus_spec(
        (Single { bits: 0x3fbf_bf75 }).times_spec(mx),
    ).minus_spec(
        (Single { bits: 0x3fdc_e9a3 }).over_spec((Single { bits: 0x3eb4_44f8 }).plus_spec(mx)),
    )
}

/// Approximate `log2(x)`.
#[verifier::when_used_as_spec(fastlog2_spec)]
pub fn fastlog2(x: Single) -> (r: Single)
    ensures
        r == fastlog2_spec(x),
{
    let mx = Single { bits: x.bits % 0x80_0000 + 0x3f00_0000 };
    let y = Single::from_u32(x.bits).times(Single { bits: 0x3400_0000 });
    y.minus(Single { bits: 0x42f8_7377 }).minus((Single { bits: 0x3fbf_bf75 }).times(mx)).minus(
        (Single { bits: 0x3fdc_e9a3 }).over((Single { bits: 0x3eb4_44f8 }).plus(mx)),
    )
}

/// `2^p`, approximately, as a pattern.
pub open spec fn fastpow2_spec(p: Single) -> Single {
    let floor = Single { bits: 0xc2fc_0000 };
    let offset = if p.lt_spec(Single { bits: 0 }) {
        Single { bits: ONE }
    } else {
        Single { bits: 0 }
    };
    let clipped = if p.lt_spec(floor) {
        floor
    } else {
        p
    };
    let z = clipped.minus_spec(Single::from_i32_spec(clipped.to_i32_spec())).plus_spec(offset);
    Single {
        bits: (Single { bits: 0x4b00_0000 }).times_spec(
            clipped.plus_spec(Single { bits: 0x42f2_8c51 }).plus_spec(
                (Single { bits: 0x41dd_d2fd }).over_spec(
                    (Single { bits: 0x409a_f5f8 }).minus_spec(z),
                ),
            ).minus_spec((Single { bits: 0x3fbe_bc8d }).times_spec(z)),
        ).to_u32_spec(),
    }
}

/// Approximate `2^p`.
#[verifier::when_used_as_spec(fastpow2_spec)]
pub fn fastpow2(p: Single) -> (r: Single)
    ensures
        r == fastpow2_spec(p),
{
    let floor = Single { bits: 0xc2fc_0000 };
    let offset = if p.lt(Single { bits: 0 }) {
        Single { bits: ONE }
    } else {
        Single { bits: 0 }
    };
    let clipped = if p.lt(floor) {
        floor
    } else {
        p
    };
    let z = clipped.minus(Single::from_i32(clipped.to_i32())).plus(offset);
    let scaled = (Single { bits: 0x4b00_0000 }).times(
        clipped.plus(Single { bits: 0x42f2_8c51 }).plus(
            (Single { bits: 0x41dd_d2fd }).over((Single { bits: 0x409a_f5f8 }).minus(z)),
        ).minus((Single { bits: 0x3fbe_bc8d }).times(z)),
    );
    Single { bits: scaled.to_u32() }
}

pub open spec fn fastpow_spec(x: Single, p: Single) -> Single {
    fastpow2_spec(p.times_spec(fastlog2_spec(x)))
}

/// Approximate `x` to the power `p`, within about two per cent.
#[verifier::when_used_as_spec(fastpow_spec)]
pub fn fastpow(x: Single, p: Single) -> (r: Single)
    ensures
        r == fastpow_spec(x, p),
{
    fastpow2(p.times(fastlog2(x)))
}

/// A channel moved away from zero and one.
pub open spec fn eased(v: Single) -> Single {
    let e = Single { bits: WGM_EPSILON };
    v.times_spec((Single { bits: ONE }).minus_spec(e)).plus_spec(e)
}

/// The reflectance of a colour in band `i`.
pub open spec fn band(r: Single, g: Single, b: Single, i: int) -> Single {
    (Single { bits: SPECTRAL_R@[i] }).times_spec(eased(r)).plus_spec(
        (Single { bits: SPECTRAL_G@[i] }).times_spec(eased(g)),
    ).plus_spec((Single { bits: SPECTRAL_B@[i] }).times_spec(eased(b)))
}

/// The reflectances of a colour.
pub open spec fn spectrum(r: Single, g: Single, b: Single) -> Seq<Single> {
    Seq::new(10, |i: int| band(r, g, b, i))
}

/// Upsamples a straight-alpha linear colour to ten reflectances.
pub fn rgb_to_spectral(r: Single, g: Single, b: Single) -> (s: [Single; 10])
    ensures
        s@ == spectrum(r, g, b),
{
    let e = Single { bits: WGM_EPSILON };
    let offset = (Single { bits: ONE }).minus(e);
    let er = r.times(offset).plus(e);
    let eg = g.times(offset).plus(e);
    let eb = b.times(offset).plus(e);
    let tr = SPECTRAL_R;
    let tg = SPECTRAL_G;
    let tb = SPECTRAL_B;
    let mut out: [Single; 10] = [Single { bits: 0 };10];
    let mut i: usize = 0;
    while i < 10
        invariant
            i <= 10,
            er == eased(r),
            eg == eased(g),
            eb == eased(b),
            tr == SPECTRAL_R,
            tg == SPECTRAL_G,
            tb == SPECTRAL_B,
            forall|j: int| 0 <= j < i ==> #[trigger] out@[j] == band(r, g, b, j),
        decreases 10 - i,
    {
        out[i] = (Single { bits: tr[i] }).times(er).plus((Single { bits: tg[i] }).times(eg)).plus(
            (Single { bits: tb[i] }).times(eb),
        );
        i += 1;
    }
    assert(out@ =~= spectrum(r, g, b));
    out
}

/// The first `n` bands weighed by a row of the downsampling matrix, added up
/// from the left.
pub open spec fn weighed(row: Seq<u32>, bands: Seq<Single>, n: nat) -> Single
    decreases n,
{
    if n == 0 {
        Single { bits: 0 }
    } else {
        weighed(row, bands, (n - 1) as nat).plus_spec(
            (Single { bits: row[n - 1] }).times_spec(bands[n - 1]),
        )
    }
}

/// A downsampled channel: the weighed bands, with the easing undone.
pub open spec fn channel(row: Seq<u32>, bands: Seq<Single>) -> Single {
    let e = Single { bits: WGM_EPSILON };
    unit(weighed(row, bands, 10).minus_spec(e).over_spec((Single { bits: ONE }).minus_spec(e)))
}

/// The colour of ten reflectances.
pub open spec fn seen(bands: Seq<Single>) -> (Single, Single, Single) {
    (channel(TO_RED@, bands), channel(TO_GREEN@, bands), channel(TO_BLUE@, bands))
}

fn downsample(row: [u32; 10], bands: &[Single; 10]) -> (r: Single)
    ensures
        r == channel(row@, bands@),
{
    let e = Single { bits: WGM_EPSILON };
    let mut sum = Single { bits: 0 };
    let mut i: usize = 0;
    while i < 10
        invariant
            i <= 10,
            sum == weighed(row@, bands@, i as nat),
        decreases 10 - i,
    {
        sum = sum.plus((Single { bits: row[i] }).times(bands[i]));
        i += 1;
    }
    to_unit(sum.minus(e).over((Single { bits: ONE }).minus(e)))
}

/// Downsamples ten reflectances to a straight-alpha linear colour in
/// `[0, 1]`.
pub fn spectral_to_rgb(bands: &[Single; 10]) -> (r: (Single, Single, Single))
    ensures
        r == seen(bands@),
{
    (downsample(TO_RED, bands), downsample(TO_GREEN, bands), downsample(TO_BLUE, bands))
}

/// The weighted geometric mean of two spectra.
pub open spec fn blended(a: Seq<Single>, b: Seq<Single>, wa: Single, wb: Single) -> Seq<Single> {
    Seq::new(10, |i: int| fastpow_spec(a[i], wa).times_spec(fastpow_spec(b[i], wb)))
}

/// Mixes two spectra by a weighted geometric mean.
pub fn mix_spectra(a: &[Single; 10], b: &[Single; 10], wa: Single, wb: Single) -> (m: [Single; 10])
    ensures
        m@ == blended(a@, b@, wa, wb),
{
    let mut out: [Single; 10] = [Single { bits: 0 };10];
    let mut i: usize = 0;
    while i < 10
        invariant
            i <= 10,
            forall|j: int|
                0 <= j < i ==> #[trigger] out@[j] == fastpow_spec(a@[j], wa).times_spec(
                    fastpow_spec(b@[j], wb),
                ),
        decreases 10 - i,
    {
        out[i] = fastpow(a[i], wa).times(fastpow(b[i], wb));
        i += 1;
    }
    assert(out@ =~= blended(a@, b@, wa, wb));
    out
}

/// The least reflectance that colours are mixed with: 1e-6.
pub const LEAST_BAND: u32 = 0x3586_37bd;

/// Reflectances held away from zero.
pub open spec fn raised(bands: Seq<Single>) -> Seq<Single> {
    Seq::new(10, |i: int| bands[i].max_spec(Single { bits: LEAST_BAND }))
}

fn raise(bands: &[Single; 10]) -> (r: [Single; 10])
    ensures
        r@ == raised(bands@),
{
    let mut out: [Single; 10] = [Single { bits: 0 };10];
    let mut i: usize = 0;
    while i < 10
        invariant
            i <= 10,
            forall|j: int|
                0 <= j < i ==> #[trigger] out@[j] == bands@[j].max_spec(
                    Single { bits: LEAST_BAND },
                ),
        decreases 10 - i,
    {
        out[i] = bands[i].max(Single { bits: LEAST_BAND });
        i += 1;
    }
    assert(out@ =~= raised(bands@));
    out
}

/// The weight of `a` when its colour is mixed with `b` spectrally.
pub open spec fn spectral_weight(a: Seq<Single>, b: Seq<Single>, fac: Single) -> Single {
    if a[3].same_spec(Single { bits: 0 }) {
        Single { bits: 0 }
    } else {
        fac.times_spec(a[3]).over_spec(
            a[3].plus_spec(b[3].times_spec((Single { bits: ONE }).minus_spec(fac))),
        )
    }
}

/// The colour channels of a purely spectral mix.
pub open spec fn spectral_mix(a: Seq<Single>, b: Seq<Single>, fac: Single) -> (
    Single,
    Single,
    Single,
) {
    let w = spectral_weight(a, b, fac);
    seen(
        blended(
            raised(spectrum(a[0], a[1], a[2])),
            raised(spectrum(b[0], b[1], b[2])),
            w,
            (Single { bits: ONE }).minus_spec(w),
        ),
    )
}

/// One channel of a mix: `pigment` where `paint` is one, the linear mix
/// where it is zero, and in between both in proportion.
pub open spec fn layered(
    pigment: Single,
    a: Single,
    b: Single,
    fac: Single,
    paint: Single,
) -> Single {
    let one = Single { bits: ONE };
    let base = if (Single { bits: 0 }).lt_spec(paint) {
        pigment
    } else {
        Single { bits: 0 }
    };
    if paint.lt_spec(one) {
        let linear = a.times_spec(fac).plus_spec(b.times_spec(one.minus_spec(fac)));
        base.times_spec(paint).plus_spec(one.minus_spec(paint).times_spec(linear))
    } else {
        base
    }
}

fn layer(pigment: Single, a: Single, b: Single, fac: Single, paint: Single) -> (r: Single)
    ensures
        r == layered(pigment, a, b, fac, paint),
{
    let one = Single { bits: ONE };
    let base = if (Single { bits: 0 }).lt(paint) {
        pigment
    } else {
        Single { bits: 0 }
    };
    if paint.lt(one) {
        let linear = a.times(fac).plus(b.times(one.minus(fac)));
        base.times(paint).plus(one.minus(paint).times(linear))
    } else {
        base
    }
}

/// A mix of two straight-alpha colours `[r, g, b, a]`.
pub open spec fn mixed(a: Seq<Single>, b: Seq<Single>, fac: Single, paint: Single) -> Seq<Single> {
    let p = spectral_mix(a, b, fac);
    seq![
        layered(p.0, a[0], b[0], fac, paint),
        layered(p.1, a[1], b[1], fac, paint),
        layered(p.2, a[2], b[2], fac, paint),
        unit(
            fac.times_spec(a[3]).plus_spec(
                (Single { bits: ONE }).minus_spec(fac).times_spec(b[3]),
            ),
        ),
    ]
}

/// Mixes two straight-alpha colours with weight `fac` for `a`: spectrally as
/// far as `paint` goes, linearly for the rest.
pub fn mix_colors(a: [Single; 4], b: [Single; 4], fac: Single, paint: Single) -> (r: [Single; 4])
    ensures
        r@ == mixed(a@, b@, fac, paint),
{
    let one = Single { bits: ONE };
    let zero = Single { bits: 0 };
    let rest = one.minus(fac);
    let alpha = to_unit(fac.times(a[3]).plus(rest.times(b[3])));
    let ghost p = spectral_mix(a@, b@, fac);
    let pigment: (Single, Single, Single) = if zero.lt(paint) {
        let w = if a[3].same(zero) {
            zero
        } else {
            fac.times(a[3]).over(a[3].plus(b[3].times(rest)))
        };
        let bands_a = raise(&rgb_to_spectral(a[0], a[1], a[2]));
        let bands_b = raise(&rgb_to_spectral(b[0], b[1], b[2]));
        let bands = mix_spectra(&bands_a, &bands_b, w, one.minus(w));
        spectral_to_rgb(&bands)
    } else {
        (zero, zero, zero)
    };
    let r = [
        layer(pigment.0, a[0], b[0], fac, paint),
        layer(pigment.1, a[1], b[1], fac, paint),
        layer(pigment.2, a[2], b[2], fac, paint),
        alpha,
    ];
    assert(r@ =~= mixed(a@, b@, fac, paint));
    r
}

/// How far blending on a canvas of alpha `x` is spectral rather than
/// additive.
pub open spec fn spectral_share(x: Single) -> Single {
    let b = x.times_spec(Single { bits: 0x4100_0000 }).minus_spec(Single { bits: 0x4040_0000 });
    unit(
        (Single { bits: HALF }).plus_spec(
            b.over_spec(
                (Single { bits: ONE }).plus_spec(
                    b.abs_spec().times_spec(Single { bits: 0x3fd3_3333 }),
                ),
            ),
        ),
    )
}

pub fn spectral_blend_factor(x: Single) -> (r: Single)
    ensures
        r == spectral_share(x),
{
    let b = x.times(Single { bits: 0x4100_0000 }).minus(Single { bits: 0x4040_0000 });
    to_unit(
        (Single { bits: HALF }).plus(
            b.over((Single { bits: ONE }).plus(b.abs().times(Single { bits: 0x3fd3_3333 }))),
        ),
    )
}

/// Three times the slope of the share, and one, is between one and six.
proof fn lemma_share_divisor()
    ensures
        ({
            let s = (Single { bits: ONE }).plus_spec(
                (Single { bits: 0x4040_0000 }).times_spec(Single { bits: 0x3fd3_3333 }),
            );
            s.finite() && pow2(149) <= s.value() <= 6 * pow2(149)
        }),
{
    let one = Single { bits: ONE };
    let three = Single { bits: 0x4040_0000 };
    let slope = Single { bits: 0x3fd3_3333 };
    let u = pow2(126);
    let top = pow2(149);
    lemma_one();
    lemma_pow2_unfold(127);
    lemma_pow2_unfold(128);
    lemma_pow2_pos(126);
    lemma_pow2_adds(23, 126);
    assert(pow2(23) == 0x80_0000 && pow2(3) == 8) by {
        lemma2_to64();
    }
    lemma_known(0x4040_0000, 0xc0_0000, 127);
    lemma_known(0x3fd3_3333, 0xd3_3333, 126);
    lemma_known(0x40a0_0000, 0xa0_0000, 128);
    let t = three.times_spec(slope);
    assert(three.units() * slope.units() <= (0xa0_0000 * (4 * u)) * (0x80_0000 * u))
        by (nonlinear_arith)
        requires
            three.units() == 0xc0_0000 * (2 * u),
            slope.units() == 0xd3_3333 * u,
            u > 0,
    ;
    assert(t.finite() && 0 <= t.value() <= 0xa0_0000 * (4 * u)) by {
        reveal(Single::times_spec);
        lemma_nearest_at_most(three.units() * slope.units(), top, 0x40a0_0000);
    }
    let s = one.plus_spec(t);
    lemma_plus_value(one, t);
    lemma_nearest_exact((6 * top) * 1, 1, 6, 149);
    assert(rounded((6 * top) as int) == 6 * top);
    lemma_rounded_monotone(one.value() + t.value(), (6 * top) as int);
    lemma_rounded_monotone(one.value(), one.value() + t.value());
    lemma_rounded_exact(one);
    lemma_pow2_adds(3, 149);
    lemma_pow2_strictly_increases(152, 277);
    if !s.finite() {
        lemma_finite_or_infinite(s);
    }
}

/// What is at most minus one half, added to one half, is held at zero.
proof fn lemma_held_at_zero(q: Single)
    requires
        !q.nan(),
        q.value() <= -(Single { bits: HALF }).value(),
    ensures
        unit((Single { bits: HALF }).plus_spec(q)) == (Single { bits: 0 }),
{
    let half = Single { bits: HALF };
    let zero = Single { bits: 0 };
    let r = half.plus_spec(q);
    lemma_one();
    lemma_infinity_units();
    if q.finite() {
        lemma_plus_value(half, q);
        lemma_rounded_monotone(half.value() + q.value(), zero.value());
        lemma_rounded_exact(zero);
        lemma_no_units(r);
        if r.value() == 0 && r.negative() {
            reveal(Single::plus_spec);
            assert(pow2(23) == 0x80_0000) by {
                lemma2_to64();
            }
            assert(magnitude(1, 24) == 1);
            lemma_nearest_at_least((-(half.value() + q.value())) as nat, 1, 1);
        }
    } else {
        lemma_finite_or_infinite(q);
        lemma_infinite_term(q, half);
    }
}

/// On a clear canvas blending is additive.
pub proof fn law_clear_canvas_is_additive()
    ensures
        spectral_share(Single { bits: 0 }) == (Single { bits: 0 }),
{
    let zero = Single { bits: 0 };
    let eight = Single { bits: 0x4100_0000 };
    let three = Single { bits: 0x4040_0000 };
    let less = Single { bits: 0xc040_0000 };
    let b = zero.times_spec(eight).minus_spec(three);
    assert(b == less) by {
        lemma_known(0x4100_0000, 0x80_0000, 129);
        law_times_nothing(zero, eight);
        assert(zero.times_spec(eight) == zero) by {
            reveal(Single::times_spec);
        }
        law_plus_nothing(less);
        lemma_plus_commutes(zero, less);
    }
    assert(b.abs_spec() == three);
    let s = (Single { bits: ONE }).plus_spec(three.times_spec(Single { bits: 0x3fd3_3333 }));
    let q = b.over_spec(s);
    lemma_share_divisor();
    lemma_no_units(s);
    lemma_pow2_pos(149);
    lemma_pow2_unfold(126);
    lemma_pow2_unfold(127);
    lemma_known(0x4040_0000, 0xc0_0000, 127);
    lemma_known(HALF, 0x80_0000, 125);
    assert((0x80_0000 * pow2(125)) * s.units() <= b.units() * pow2(149)) by (nonlinear_arith)
        requires
            b.units() == 0xc0_0000 * (4 * pow2(125)),
            s.units() <= 6 * pow2(149),
            pow2(149) > 0,
            pow2(125) >= 0,
    ;
    assert(!q.nan() && q.value() <= -(0x80_0000 * pow2(125))) by {
        reveal(Single::over_spec);
        lemma_nearest_at_least(b.units() * pow2(149), s.units(), HALF as nat);
    }
    lemma_held_at_zero(q);
}

/// Five times the slope of the share, and one, is between one and ten.
proof fn lemma_dense_divisor()
    ensures
        ({
            let s = (Single { bits: ONE }).plus_spec(
                (Single { bits: 0x40a0_0000 }).times_spec(Single { bits: 0x3fd3_3333 }),
            );
            s.finite() && pow2(149) <= s.value() <= 10 * pow2(149)
        }),
{
    let one = Single { bits: ONE };
    let five = Single { bits: 0x40a0_0000 };
    let slope = Single { bits: 0x3fd3_3333 };
    let u = pow2(126);
    let top = pow2(149);
    lemma_one();
    lemma_pow2_unfold(127);
    lemma_pow2_unfold(128);
    lemma_pow2_unfold(129);
    lemma_pow2_pos(126);
    lemma_pow2_adds(23, 126);
    assert(pow2(23) == 0x80_0000 && pow2(4) == 16) by {
        lemma2_to64();
    }
    lemma_known(0x40a0_0000, 0xa0_0000, 128);
    lemma_known(0x3fd3_3333, 0xd3_3333, 126);
    lemma_known(0x4110_0000, 0x90_0000, 129);
    let t = five.times_spec(slope);
    assert(five.units() * slope.units() <= (0x90_0000 * (8 * u)) * (0x80_0000 * u))
        by (nonlinear_arith)
        requires
            five.units() == 0xa0_0000 * (4 * u),
            slope.units() == 0xd3_3333 * u,
            u > 0,
    ;
    assert(t.finite() && 0 <= t.value() <= 0x90_0000 * (8 * u)) by {
        reveal(Single::times_spec);
        lemma_nearest_at_most(five.units() * slope.units(), top, 0x4110_0000);
    }
    let s = one.plus_spec(t);
    lemma_plus_value(one, t);
    lemma_nearest_exact((10 * top) * 1, 1, 10, 149);
    assert(rounded((10 * top) as int) == 10 * top);
    lemma_rounded_monotone(one.value() + t.value(), (10 * top) as int);
    lemma_rounded_monotone(one.value(), one.value() + t.value());
    lemma_rounded_exact(one);
    lemma_pow2_adds(4, 149);
    lemma_pow2_strictly_increases(153, 277);
    if !s.finite() {
        lemma_finite_or_infinite(s);
    }
}

/// On a dense canvas blending is wholly spectral.
pub proof fn law_dense_canvas_is_spectral()
    ensures
        spectral_share(Single { bits: ONE }) == (Single { bits: ONE }),
{
    let zero = Single { bits: 0 };
    let one = Single { bits: ONE };
    let half = Single { bits: HALF };
    let eight = Single { bits: 0x4100_0000 };
    let three = Single { bits: 0x4040_0000 };
    let five = Single { bits: 0x40a0_0000 };
    lemma_one();
    lemma_known(0x4100_0000, 0x80_0000, 129);
    lemma_known(0x4040_0000, 0xc0_0000, 127);
    lemma_known(0x40a0_0000, 0xa0_0000, 128);
    lemma_known(HALF, 0x80_0000, 125);
    lemma_pow2_unfold(126);
    lemma_pow2_unfold(127);
    lemma_pow2_unfold(128);
    lemma_pow2_unfold(129);
    lemma_pow2_pos(125);
    lemma_pow2_adds(24, 125);
    assert(pow2(24) == 0x100_0000) by {
        lemma2_to64();
    }
    law_times_commutes(one, eight);
    law_times_one(eight);
    let b = eight.minus_spec(three);
    assert(b == five) by {
        lemma_negate(three);
        lemma_plus_value(eight, three.negate_spec());
        lemma_rounded_exact(five);
        lemma_same_value(b, five);
    }
    assert(b.abs_spec() == five);
    let s = one.plus_spec(five.times_spec(Single { bits: 0x3fd3_3333 }));
    let q = five.over_spec(s);
    lemma_dense_divisor();
    lemma_no_units(s);
    assert((0x80_0000 * pow2(125)) * s.units() <= five.units() * pow2(149)) by (nonlinear_arith)
        requires
            five.units() == 0xa0_0000 * (8 * pow2(125)),
            s.units() <= 10 * pow2(149),
            pow2(149) > 0,
            pow2(125) >= 0,
    ;
    assert(!q.nan() && q.value() >= 0x80_0000 * pow2(125)) by {
        reveal(Single::over_spec);
        lemma_nearest_at_least(five.units() * pow2(149), s.units(), HALF as nat);
    }
    let r = half.plus_spec(q);
    if q.finite() {
        lemma_plus_at_least(half, q, one);
        if r.value() == pow2(149) {
            lemma_same_value(r, one);
        }
    } else {
        lemma_finite_or_infinite(q);
        lemma_infinite_term(q, half);
        lemma_infinity_units();
    }
}

} // verus!
