//! When a smudging brush looks at the canvas, where, and what it keeps of it as
//! pigment.
//!
//! Values are in units of 2^-149, so that one is 2^149.
use crate::brush::BrushView;
use crate::color::{unit, RgbaF32};
use crate::dab::{bucket, smudged, target_alpha};
use crate::elementary::Answers;
use crate::means::{lemma_proper_product, lemma_times_close, lemma_times_finite, proper, size};
use crate::mixture::{law_mix_of_pigments_at_its_ends, proper_paint};
use crate::portions::{held_value, lemma_held_value};
use crate::range::{lemma_known, lemma_one, lemma_plus_at_least, lemma_plus_near};
use crate::setting::BrushSetting;
use crate::single::{Single, HALF, ONE};
use crate::smearing::lemma_kept_share;
use crate::smudge::{
    kept_share, poured, recentness, smudges, spot_radius, stale, LEAST_SHARE, RADIUS_MAX,
    RADIUS_MIN,
};
use crate::spectral::spectral_mix;
use crate::state::BrushState;
use crate::values::SettingValues;
use vstd::arithmetic::power2::*;
use vstd::prelude::*;

verus! {

/// A brush smudges where its length is below one and its smudge is not zero, by
/// its base value or by a curve.
pub proof fn law_smudging_needs_smudge_and_length(b: BrushView, sv: SettingValues)
    requires
        !sv.get(BrushSetting::SmudgeLength).nan(),
        !b.base(BrushSetting::Smudge).nan(),
    ensures
        smudges(b, sv) <==> sv.get(BrushSetting::SmudgeLength).value() < pow2(149) && (b.base(
            BrushSetting::Smudge,
        ).value() != 0 || b.mapped(BrushSetting::Smudge)),
{
    lemma_one();
    lemma_held_value(sv.get(BrushSetting::SmudgeLength));
}

/// What a dab keeps of the old colour is the smudge length, held to its range,
/// and a hundredth at the least.
pub proof fn law_kept_share_is_the_length(sv: SettingValues)
    requires
        !sv.get(BrushSetting::SmudgeLength).nan(),
    ensures
        ({
            let u = pow2(149) as int;
            let k = kept_share(sv).value();
            let length = held_value(sv.get(BrushSetting::SmudgeLength));
            &&& k >= length
            &&& 100 * k >= u - pow2(126)
            &&& 100 * length >= u + pow2(126) ==> k == length
            &&& 100 * length < u - pow2(126) ==> 100 * k <= u + pow2(126)
        }),
{
    lemma_one();
    lemma_kept_share(sv);
    lemma_held_value(sv.get(BrushSetting::SmudgeLength));
    lemma_known(0x3c23_d70a, 0xa3_d70a, 119);
    lemma_pow2_adds(7, 119);
    lemma_pow2_adds(30, 119);
    lemma_pow2_pos(119);
    assert(pow2(7) == 128 && pow2(30) == 0x4000_0000) by {
        lemma2_to64();
    }
}

/// The canvas is looked at again where the last look is older than the answer
/// for the power allows, which is one at the most.
pub proof fn law_old_looks_are_stale(state: BrushState, sv: SettingValues, m: Answers)
    requires
        proper(state.prev_col_recentness),
        proper(
            m.pow(
                (Single { bits: HALF }).times(kept_share(sv)),
                sv.get(BrushSetting::SmudgeLengthLog),
            ),
        ),
    ensures
        ({
            let limit = m.pow(
                (Single { bits: HALF }).times(kept_share(sv)),
                sv.get(BrushSetting::SmudgeLengthLog),
            ).value();
            let age = recentness(state, sv).value();
            &&& age < limit ==> stale(state, sv, m)
            &&& age > limit + pow2(127) ==> !stale(state, sv, m)
        }),
{
    let one = Single { bits: ONE };
    let tiny = Single { bits: 0x24e6_9595 };
    let limit = m.pow(
        (Single { bits: HALF }).times(kept_share(sv)),
        sv.get(BrushSetting::SmudgeLengthLog),
    );
    lemma_one();
    lemma_kept_share(sv);
    lemma_proper_product(state.prev_col_recentness, kept_share(sv));
    lemma_known(0x24e6_9595, 0xe6_9595, 72);
    lemma_pow2_adds(24, 72);
    lemma_pow2_pos(72);
    lemma_pow2_strictly_increases(96, 126);
    lemma_pow2_unfold(126);
    lemma_pow2_unfold(127);
    lemma_pow2_unfold(150);
    lemma_pow2_pos(125);
    lemma_pow2_strictly_increases(96, 149);
    assert(pow2(24) == 0x100_0000) by {
        lemma2_to64();
    }
    let held = limit.min(one);
    assert(held.value() == limit.value() && held.finite());
    lemma_plus_at_least(held, tiny, held);
    lemma_pow2_unfold(151);
    lemma_plus_near(held, tiny, 151);
}

/// The spot that is looked at has the radius of the dab times the answer for the
/// exponential of its setting, within the limits of radii.
pub proof fn law_spot_grows_with_its_setting(sv: SettingValues, radius: Single, m: Answers)
    requires
        radius.finite(),
        0 <= radius.value() <= 1024 * pow2(149),
        m.exp(sv.get(BrushSetting::SmudgeRadiusLog)).finite(),
        0 <= m.exp(sv.get(BrushSetting::SmudgeRadiusLog)).value() <= 1024 * pow2(149),
    ensures
        ({
            let u = pow2(149) as int;
            let e = m.exp(sv.get(BrushSetting::SmudgeRadiusLog)).value();
            let want = radius.value() * e;
            let r = spot_radius(sv, radius, m);
            &&& !r.nan()
            &&& 0x80_0000 * want >= 0x20_0000 * (u * u) && want <= 999 * (u * u) ==> size(
                u * r.value() - want,
            ) * 0x80_0000 <= want + 0x80_0000 * u
        }),
{
    let u = pow2(149) as int;
    let f = m.exp(sv.get(BrushSetting::SmudgeRadiusLog));
    let x = radius.times(f);
    let (rv, e) = (radius.value(), f.value());
    lemma_one();
    lemma_known(RADIUS_MIN, 0xcc_cccd, 123);
    lemma_known(RADIUS_MAX, 0xfa_0000, 135);
    lemma_pow2_adds(26, 123);
    lemma_pow2_adds(14, 135);
    lemma_pow2_adds(21, 149);
    lemma_pow2_pos(123);
    assert(pow2(26) == 0x400_0000 && pow2(14) == 0x4000 && pow2(21) == 0x20_0000) by {
        lemma2_to64();
    }
    let want = rv * e;
    assert(0 <= want <= 0x10_0000 * (u * u)) by (nonlinear_arith)
        requires
            want == rv * e,
            0 <= rv <= 1024 * u,
            0 <= e <= 1024 * u,
    ;
    assert(size(rv) * size(e) < pow2(170) * pow2(149)) by (nonlinear_arith)
        requires
            size(rv) == rv,
            size(e) == e,
            rv * e <= 0x10_0000 * (u * u),
            pow2(170) == 0x20_0000 * u,
            pow2(149) == u,
            u > 0,
    ;
    lemma_times_finite(radius, f, 170);
    lemma_times_close(radius, f);
    let xv = x.value();
    if 0x80_0000 * want >= 0x20_0000 * (u * u) && want <= 999 * (u * u) {
        let ux = u * xv;
        assert(0x100_0000 * size(ux - want) <= want + 0x80_0000 * u);
        lemma_pow2_strictly_increases(24, 149);
        assert(pow2(24) == 0x100_0000) by {
            lemma2_to64();
        }
        assert(0x100_0000 * u <= u * u) by (nonlinear_arith)
            requires
                u >= 0x100_0000,
        ;
        assert(100 * ux >= 24 * (u * u) && ux <= 1000 * (u * u));
        assert(100 * xv >= 24 * u && xv <= 1000 * u) by (nonlinear_arith)
            requires
                100 * ux >= 24 * (u * u),
                ux <= 1000 * (u * u),
                ux == u * xv,
                u > 0,
        ;
    }
}

/// A bucket that holds paint, and a colour that is paint, as mixes take them.
pub open spec fn holds_paint(s: BrushState) -> bool {
    proper_paint(bucket(s)) && s.smudge_a.value() > 0
}

/// Where a brush smudges fully with pigment, the colour of the dab is that of
/// the bucket: the colour of the brush has no part in it.
pub proof fn law_full_smudge_hides_the_brush(
    base: RgbaF32,
    other: RgbaF32,
    state: BrushState,
)
    requires
        holds_paint(state),
        proper_paint(seq![base.r, base.g, base.b, Single { bits: ONE }]),
        proper_paint(seq![other.r, other.g, other.b, Single { bits: ONE }]),
        target_alpha(state, Single { bits: ONE }).value() > 0,
        !target_alpha(state, Single { bits: ONE }).nan(),
    ensures
        smudged(base, state, Single { bits: ONE }, Single { bits: ONE }) == smudged(
            other,
            state,
            Single { bits: ONE },
            Single { bits: ONE },
        ),
{
    let one = Single { bits: ONE };
    let a = bucket(state);
    let b = seq![base.r, base.g, base.b, one];
    let c = seq![other.r, other.g, other.b, one];
    lemma_smudged_pigment(base, state);
    lemma_smudged_pigment(other, state);
    assert(c[3].value() > 0) by {
        lemma_one();
    }
    law_mix_of_pigments_at_its_ends(a, b, c);
}

/// What is smudged as pigment is a spectral mix.
proof fn lemma_smudged_pigment(base: RgbaF32, state: BrushState)
    requires
        target_alpha(state, Single { bits: ONE }).value() > 0,
        !target_alpha(state, Single { bits: ONE }).nan(),
    ensures
        ({
            let one = Single { bits: ONE };
            let p = spectral_mix(bucket(state), seq![base.r, base.g, base.b, one], one);
            smudged(base, state, one, one) == (unit(p.0), unit(p.1), unit(p.2))
        }),
{
    let one = Single { bits: ONE };
    let zero = Single { bits: 0 };
    lemma_one();
    assert(zero.lt(one) && !one.lt(one) && !one.le(zero));
    assert(!target_alpha(state, one).le(zero));
}

/// Where nothing of an old bucket is kept and the brush paints with pigment
/// alone, the bucket comes to hold what it would from any other bucket.
pub proof fn law_unkept_bucket_has_no_part(s: BrushState, t: BrushState, c: RgbaF32)
    requires
        holds_paint(s),
        holds_paint(t),
        proper_paint(seq![c.r, c.g, c.b, c.a]),
        100 * c.a.value() > 2 * pow2(149),
    ensures
        ({
            let one = Single { bits: ONE };
            let zero = Single { bits: 0 };
            let (x, y) = (poured(s, c, zero, one), poured(t, c, zero, one));
            &&& x.smudge_ra == y.smudge_ra
            &&& x.smudge_ga == y.smudge_ga
            &&& x.smudge_ba == y.smudge_ba
        }),
{
    let d = seq![c.r, c.g, c.b, c.a];
    lemma_poured_pigment(s, c);
    lemma_poured_pigment(t, c);
    assert(d[3].value() > 0) by {
        lemma_one();
    }
    law_mix_of_pigments_at_its_ends(bucket(s), d, bucket(t));
}

/// What is poured as pigment is a spectral mix.
proof fn lemma_poured_pigment(s: BrushState, c: RgbaF32)
    requires
        proper(c.a),
        100 * c.a.value() > 2 * pow2(149),
    ensures
        ({
            let one = Single { bits: ONE };
            let zero = Single { bits: 0 };
            let x = poured(s, c, zero, one);
            let p = spectral_mix(bucket(s), seq![c.r, c.g, c.b, c.a], zero);
            x.smudge_ra == p.0 && x.smudge_ga == p.1 && x.smudge_ba == p.2
        }),
{
    lemma_one();
    lemma_known(0x3c23_d70a, 0xa3_d70a, 119);
    lemma_pow2_adds(30, 119);
    lemma_pow2_pos(119);
    assert(pow2(30) == 0x4000_0000) by {
        lemma2_to64();
    }
    let one = Single { bits: ONE };
    let zero = Single { bits: 0 };
    assert((Single { bits: LEAST_SHARE }).lt(c.a));
    assert(zero.lt(one) && !one.lt(one));
}

} // verus!
