//! What a smudging brush takes up and what it leaves, in exact arithmetic.
//!
//! Values are in units of 2^-149, so that one is 2^149.
use crate::brush::BrushView;
use crate::color::{unit, RgbaF32};
use crate::dab::{smeared, smudged, target_alpha};
use crate::dab_surface::DabSurface;
use crate::elementary::Answers;
use crate::means::{
    lemma_over_close, lemma_over_finite, lemma_proper_product, lemma_rest, lemma_weighed_sum,
    proper, size,
};
use crate::rand::SampleRng;
use crate::range::{
    lemma_finite_or_infinite, lemma_known, lemma_negate, lemma_no_units, lemma_one,
    lemma_over_order, lemma_plus_value, lemma_rounded_exact, lemma_unit_in_unit,
};
use crate::setting::BrushSetting;
use crate::single::{
    law_times_commutes, law_times_nothing, law_times_one, lemma_infinity_units, Single, ONE,
};
use crate::smudge::{
    barred, kept_share, picked_up, poured, recentness, smudge_step, smudges, spot_radius, stale,
};
use crate::state::BrushState;
use crate::values::SettingValues;
use vstd::arithmetic::power2::*;
use vstd::prelude::*;

verus! {

/// A colour whose channels and alpha are from zero to one.
pub open spec fn proper_colour(c: RgbaF32) -> bool {
    proper(c.r) && proper(c.g) && proper(c.b) && proper(c.a)
}

/// A bucket whose channels and alpha are from zero to one.
pub open spec fn proper_bucket(s: BrushState) -> bool {
    proper(s.smudge_ra) && proper(s.smudge_ga) && proper(s.smudge_ba) && proper(s.smudge_a)
}

/// Whether `new` is the share `share` of `old` and the rest of it of a channel
/// `c` with the alpha `a`, to within a part in 2^20.
pub open spec fn refilled(
    old: Single,
    share: Single,
    c: Single,
    a: Single,
    new: Single,
) -> bool {
    let u = pow2(149) as int;
    let want = u * (old.value() * share.value()) + (u - share.value()) * (c.value() * a.value());
    &&& new.finite()
    &&& size(u * u * new.value() - want) <= u * u * pow2(129)
    &&& share.value() == 0 ==> new.value() == c.times(a).value()
}

/// One channel that is poured in.
proof fn lemma_refilled(old: Single, share: Single, c: Single, a: Single)
    requires
        proper(old),
        proper(share),
        proper(c),
        proper(a),
    ensures
        ({
            let rest = (Single { bits: ONE }).minus(share).times(a);
            refilled(old, share, c, a, old.times(share).plus(c.times(rest)))
        }),
{
    let u = pow2(149) as int;
    let w = pow2(125) as int;
    let one = Single { bits: ONE };
    let left = one.minus(share);
    let rest = left.times(a);
    let new = old.times(share).plus(c.times(rest));
    lemma_one();
    lemma_rest(share);
    lemma_proper_product(left, a);
    lemma_weighed_sum(old, share, c, rest);
    lemma_pow2_unfold(126);
    lemma_pow2_unfold(127);
    lemma_pow2_unfold(128);
    lemma_pow2_unfold(129);
    lemma_pow2_pos(125);
    let (ov, sv, cv, av) = (old.value(), share.value(), c.value(), a.value());
    let (lv, rv, nv) = (left.value(), rest.value(), new.value());
    let e1 = u * nv - (ov * sv + cv * rv);
    let e2 = u * rv - lv * av;
    let e3 = lv - (u - sv);
    let want = u * (ov * sv) + (u - sv) * (cv * av);
    assert(u * u * nv - want == u * e1 + cv * e2 + (cv * av) * e3) by {
        lemma_pour_errors(u, ov, sv, cv, av, lv, rv, nv);
    }
    assert(-(u * (u * (8 * w))) <= u * e1 <= u * (u * (8 * w))) by (nonlinear_arith)
        requires
            -(u * (8 * w)) <= e1 <= u * (8 * w),
            u > 0,
    ;
    assert(-(u * (u * (2 * w))) <= cv * e2 <= u * (u * (2 * w))) by (nonlinear_arith)
        requires
            -(u * (2 * w)) <= e2 <= u * (2 * w),
            0 <= cv <= u,
    ;
    assert(0 <= cv * av <= u * u) by (nonlinear_arith)
        requires
            0 <= cv <= u,
            0 <= av <= u,
    ;
    assert(-(u * u * w) <= (cv * av) * e3 <= u * u * w) by (nonlinear_arith)
        requires
            0 <= cv * av <= u * u,
            -w <= e3 <= w,
    ;
    let uuw = u * u * w;
    assert(u * (u * (8 * w)) == 8 * uuw && u * (u * (2 * w)) == 2 * uuw && u * u * (16 * w) == 16
        * uuw) by (nonlinear_arith)
        requires
            uuw == u * u * w,
    ;
    if sv == 0 {
        law_times_commutes(one, a);
        law_times_one(a);
        lemma_no_units(share);
        law_times_nothing(share, old);
        law_times_commutes(share, old);
        lemma_no_units(old.times(share));
        lemma_proper_product(c, a);
        lemma_plus_value(old.times(share), c.times(a));
        lemma_rounded_exact(c.times(a));
    }
}

proof fn lemma_pour_errors(u: int, o: int, s: int, c: int, a: int, l: int, r: int, n: int)
    ensures
        u * u * n - (u * (o * s) + (u - s) * (c * a)) == u * (u * n - (o * s + c * r)) + c * (u * r
            - l * a) + (c * a) * (l - (u - s)),
{
    let (os, ca) = (o * s, c * a);
    assert(u * (u * n - (os + c * r)) == u * u * n - u * os - u * (c * r)) by (nonlinear_arith);
    assert(c * (u * r - l * a) == u * (c * r) - l * ca) by (nonlinear_arith)
        requires
            ca == c * a,
    ;
    assert(ca * (l - (u - s)) == l * ca - (u - s) * ca) by (nonlinear_arith);
}

/// A colour that is poured into the bucket as light: each of red, green and blue
/// becomes the share that is kept of that same channel, and for the rest that
/// same channel of the new colour with its alpha; alpha does likewise.  Where
/// nothing is kept the bucket holds exactly the new colour.
pub proof fn law_poured_colour_is_a_mean(
    state: BrushState,
    c: RgbaF32,
    share: Single,
    paint: Single,
)
    requires
        !(Single { bits: 0 }).lt(paint),
        proper(share),
        proper_colour(c),
        proper_bucket(state),
    ensures
        ({
            let one = Single { bits: ONE };
            let s = poured(state, c, share, paint);
            &&& refilled(state.smudge_ra, share, c.r, c.a, s.smudge_ra)
            &&& refilled(state.smudge_ga, share, c.g, c.a, s.smudge_ga)
            &&& refilled(state.smudge_ba, share, c.b, c.a, s.smudge_ba)
            &&& refilled(state.smudge_a, share, one, c.a, s.smudge_a)
            &&& proper(s.smudge_a)
            &&& s == (BrushState {
                smudge_ra: s.smudge_ra,
                smudge_ga: s.smudge_ga,
                smudge_ba: s.smudge_ba,
                smudge_a: s.smudge_a,
                ..state
            })
        }),
{
    let one = Single { bits: ONE };
    let u = pow2(149) as int;
    lemma_one();
    lemma_refilled(state.smudge_ra, share, c.r, c.a);
    lemma_refilled(state.smudge_ga, share, c.g, c.a);
    lemma_refilled(state.smudge_ba, share, c.b, c.a);
    lemma_refilled(state.smudge_a, share, one, c.a);
    let rest = one.minus(share).times(c.a);
    lemma_rest(share);
    lemma_proper_product(one.minus(share), c.a);
    law_times_commutes(one, rest);
    law_times_one(rest);
    let sum = state.smudge_a.times(share).plus(rest);
    lemma_weighed_sum(state.smudge_a, share, one, rest);
    // Holding alpha to one does not take it further from the mean.
    let (ov, sv, av) = (state.smudge_a.value(), share.value(), c.a.value());
    let want = u * (ov * sv) + (u - sv) * (u * av);
    assert(want <= u * u * u) by {
        assert(ov * sv <= u * sv) by (nonlinear_arith)
            requires
                0 <= ov <= u,
                sv >= 0,
        ;
        assert((u - sv) * (u * av) <= (u - sv) * (u * u)) by (nonlinear_arith)
            requires
                0 <= av <= u,
                u - sv >= 0,
                u > 0,
        ;
        assert(u * (ov * sv) <= u * (u * sv)) by (nonlinear_arith)
            requires
                ov * sv <= u * sv,
                u > 0,
        ;
        assert(u * (u * sv) + (u - sv) * (u * u) == u * u * u) by (nonlinear_arith);
    }
    assert(one.value() * av == u * av);
    if sum.value() > u {
        assert(u * u * sum.value() >= u * u * u) by (nonlinear_arith)
            requires
                sum.value() > u,
                u > 0,
        ;
        if sv == 0 {
            law_times_commutes(one, c.a);
            law_times_one(c.a);
        }
    }
    lemma_no_units(sum);
}

/// A dab of a brush whose last look at the canvas is forgotten looks at it, and
/// fills its bucket with nothing but what it sees there: channel by channel the
/// colour of the canvas with its alpha.
pub proof fn law_fresh_bucket_takes_the_colour_of_the_canvas<S: DabSurface>(
    b: BrushView,
    sv: SettingValues,
    state: BrushState,
    shown: S::Shown,
    rng: SampleRng,
    x: Single,
    y: Single,
    radius: Single,
    m: Answers,
)
    requires
        smudges(b, sv),
        !(Single { bits: 0 }).lt(unit(sv.get(BrushSetting::Paint))),
        state.prev_col_recentness.zero(),
        stale(state, sv, m),
        proper_bucket(state),
        ({
            let c = S::color_in(shown, x, y, spot_radius(sv, radius, m));
            proper_colour(c) && !barred(sv, c.a)
        }),
    ensures
        ({
            let c = S::color_in(shown, x, y, spot_radius(sv, radius, m));
            let (s, dropped, left) = smudge_step::<S>(
                b,
                sv,
                state,
                shown,
                rng,
                x,
                y,
                radius,
                m,
            );
            &&& !dropped
            &&& left == rng
            &&& s.smudge_ra.value() == c.r.times(c.a).value()
            &&& s.smudge_ga.value() == c.g.times(c.a).value()
            &&& s.smudge_ba.value() == c.b.times(c.a).value()
            &&& s.smudge_a.value() == c.a.value()
            &&& s.prev_col_r == c.r && s.prev_col_g == c.g && s.prev_col_b == c.b && s.prev_col_a
                == c.a
        }),
{
    let zero = Single { bits: 0 };
    let one = Single { bits: ONE };
    let c = S::color_in(shown, x, y, spot_radius(sv, radius, m));
    lemma_one();
    lemma_kept_share(sv);
    law_times_nothing(state.prev_col_recentness, kept_share(sv));
    lemma_no_units(recentness(state, sv));
    let s = BrushState {
        prev_col_recentness: one,
        prev_col_r: c.r,
        prev_col_g: c.g,
        prev_col_b: c.b,
        prev_col_a: c.a,
        ..state
    };
    law_poured_colour_is_a_mean(s, c, zero, unit(sv.get(BrushSetting::Paint)));
    law_times_commutes(one, c.a);
    law_times_one(c.a);
}

/// The share that is kept is a number from 0.01 to one.
pub proof fn lemma_kept_share(sv: SettingValues)
    ensures
        proper(kept_share(sv)),
        kept_share(sv).value() > 0,
{
    let least = Single { bits: 0x3c23_d70a };
    lemma_one();
    lemma_known(0x3c23_d70a, 0xa3_d70a, 119);
    lemma_pow2_pos(119);
    lemma_pow2_adds(24, 119);
    lemma_pow2_strictly_increases(143, 149);
    assert(pow2(24) == 0x100_0000) by {
        lemma2_to64();
    }
    lemma_unit_in_unit(sv.get(BrushSetting::SmudgeLength));
    lemma_infinity_units();
    let v = unit(sv.get(BrushSetting::SmudgeLength));
    if !v.nan() && !v.finite() {
        lemma_finite_or_infinite(v);
    }
}

/// A canvas that is too transparent for the brush, or for a negative limit too
/// opaque, drops the dab and leaves the bucket as it was; no other does.
pub proof fn law_limits_of_transparency_drop_dabs(
    state: BrushState,
    sv: SettingValues,
    c: RgbaF32,
    m: Answers,
)
    requires
        stale(state, sv, m),
        !c.a.nan(),
        !sv.get(BrushSetting::SmudgeTransparency).nan(),
    ensures
        ({
            let limit = sv.get(BrushSetting::SmudgeTransparency).value();
            let (s, dropped) = picked_up(state, sv, c, m);
            &&& dropped == (limit > 0 && c.a.value() < limit || limit < 0 && -limit < c.a.value())
            &&& dropped ==> s.smudge_ra == state.smudge_ra && s.smudge_ga == state.smudge_ga
                && s.smudge_ba == state.smudge_ba && s.smudge_a == state.smudge_a
            &&& s.prev_col_recentness.value() == pow2(149)
        }),
{
    lemma_one();
    lemma_negate(sv.get(BrushSetting::SmudgeTransparency));
}

/// A dab that need not look at the canvas again takes the colour of the last
/// look, which is older by the share that is kept of a colour.
pub proof fn law_recent_colour_is_used_again(
    state: BrushState,
    sv: SettingValues,
    c: RgbaF32,
    other: RgbaF32,
    m: Answers,
)
    requires
        !stale(state, sv, m),
        proper(state.prev_col_recentness),
    ensures
        ({
            let u = pow2(149) as int;
            let (s, dropped) = picked_up(state, sv, c, m);
            let age = s.prev_col_recentness;
            &&& !dropped
            &&& picked_up(state, sv, other, m).0 == s
            &&& proper(age)
            &&& size(u * age.value() - state.prev_col_recentness.value() * kept_share(sv).value())
                <= u * pow2(126)
            &&& s.prev_col_r == state.prev_col_r && s.prev_col_g == state.prev_col_g && s.prev_col_b
                == state.prev_col_b && s.prev_col_a == state.prev_col_a
        }),
{
    lemma_kept_share(sv);
    lemma_proper_product(state.prev_col_recentness, kept_share(sv));
}

/// The alpha that smudging leaves: in the measure of the smudge that of the
/// bucket, for the rest full.
pub proof fn law_smudged_alpha_is_a_mean(state: BrushState, smudge: Single)
    requires
        proper(smudge),
        proper(state.smudge_a),
    ensures
        ({
            let u = pow2(149) as int;
            let (s, a) = (smudge.value(), state.smudge_a.value());
            let alpha = target_alpha(state, smudge);
            &&& proper(alpha)
            &&& size(u * alpha.value() - ((u - s) * u + s * a)) <= u * pow2(129)
            &&& s == 0 ==> alpha.value() == u
        }),
{
    let u = pow2(149) as int;
    let w = pow2(125) as int;
    let one = Single { bits: ONE };
    let rest = one.minus(smudge);
    lemma_one();
    lemma_rest(smudge);
    law_times_one(rest);
    lemma_weighed_sum(rest, one, smudge, state.smudge_a);
    lemma_pow2_unfold(126);
    lemma_pow2_unfold(127);
    lemma_pow2_unfold(128);
    lemma_pow2_unfold(129);
    lemma_pow2_pos(125);
    let sum = rest.plus(smudge.times(state.smudge_a));
    let (s, a, l) = (smudge.value(), state.smudge_a.value(), rest.value());
    let want = (u - s) * u + s * a;
    let e = l - (u - s);
    assert(l * u == (u - s) * u + u * e) by (nonlinear_arith)
        requires
            e == l - (u - s),
    ;
    assert(-(u * w) <= u * e <= u * w) by (nonlinear_arith)
        requires
            -w <= e <= w,
            u > 0,
    ;
    assert(u * (8 * w) == 8 * (u * w) && u * (16 * w) == 16 * (u * w)) by (nonlinear_arith);
    assert(want <= u * u) by {
        assert(s * a <= s * u) by (nonlinear_arith)
            requires
                a <= u,
                s >= 0,
        ;
        assert((u - s) * u + s * u == u * u) by (nonlinear_arith);
    }
    assert(want >= 0) by (nonlinear_arith)
        requires
            want == (u - s) * u + s * a,
            0 <= s <= u,
            a >= 0,
            u > 0,
    ;
    if sum.value() > u {
        assert(u * sum.value() >= u * u) by (nonlinear_arith)
            requires
                sum.value() > u,
                u > 0,
        ;
    }
    if s == 0 {
        lemma_no_units(smudge);
        law_times_nothing(smudge, state.smudge_a);
        lemma_no_units(smudge.times(state.smudge_a));
        lemma_plus_value(rest, smudge.times(state.smudge_a));
        lemma_rounded_exact(one);
    }
}

/// Whether `out` is a channel that, with the alpha `alpha`, is the share
/// `smudge` of the bucket and for the rest that of the brush, to within a part
/// in 2^18.
pub open spec fn smudge_of(
    smudge: Single,
    bucket: Single,
    base: Single,
    alpha: Single,
    out: Single,
) -> bool {
    let u = pow2(149) as int;
    let s = smudge.value();
    &&& proper(out)
    &&& size(alpha.value() * out.value() - (s * bucket.value() + (u - s) * base.value())) <= u
        * pow2(131)
}

/// One channel of a smudged colour.
proof fn lemma_smudge_of(smudge: Single, bucket: Single, base: Single, a: Single, alpha: Single)
    requires
        proper(smudge),
        proper(bucket),
        proper(base),
        proper(a),
        bucket.value() <= a.value(),
        proper(alpha),
        alpha.value() >= pow2(129),
        ({
            let u = pow2(149) as int;
            let s = smudge.value();
            size(u * alpha.value() - ((u - s) * u + s * a.value())) <= u * pow2(129)
        }),
    ensures
        smudge_of(smudge, bucket, base, alpha, smeared(smudge, bucket, base, alpha)),
{
    let u = pow2(149) as int;
    let w = pow2(125) as int;
    let one = Single { bits: ONE };
    let rest = one.minus(smudge);
    let n = smudge.times(bucket).plus(rest.times(base));
    let q = n.over(alpha);
    lemma_one();
    lemma_rest(smudge);
    lemma_weighed_sum(smudge, bucket, rest, base);
    lemma_pow2_unfold(126);
    lemma_pow2_unfold(127);
    lemma_pow2_unfold(128);
    lemma_pow2_unfold(129);
    lemma_pow2_unfold(130);
    lemma_pow2_unfold(131);
    lemma_pow2_pos(125);
    lemma_pow2_adds(24, 125);
    assert(pow2(24) == 0x100_0000) by {
        lemma2_to64();
    }
    let (s, bv, cv, l, nv, av) = (
        smudge.value(),
        bucket.value(),
        base.value(),
        rest.value(),
        n.value(),
        alpha.value(),
    );
    let want = s * bv + (u - s) * cv;
    let e1 = u * nv - (s * bv + l * cv);
    let e2 = l - (u - s);
    assert(u * nv - want == e1 + cv * e2) by (nonlinear_arith)
        requires
            want == s * bv + (u - s) * cv,
            e1 == u * nv - (s * bv + l * cv),
            e2 == l - (u - s),
    ;
    assert(-(u * w) <= cv * e2 <= u * w) by (nonlinear_arith)
        requires
            0 <= cv <= u,
            -w <= e2 <= w,
    ;
    assert(u * (8 * w) == 8 * (u * w) && u * (16 * w) == 16 * (u * w) && u * (64 * w) == 64 * (u
        * w)) by (nonlinear_arith);
    assert(size(u * nv - want) <= 9 * (u * w));
    // The quotient.
    assert(size(nv) * pow2(149) < pow2(200) * av) by {
        lemma_pow2_adds(150, 149);
        lemma_pow2_adds(200, 129);
        lemma_pow2_unfold(150);
        lemma_pow2_strictly_increases(299, 329);
        assert(nv * u <= (2 * u) * u) by (nonlinear_arith)
            requires
                nv <= 2 * u,
                u > 0,
        ;
        assert(pow2(200) * pow2(129) <= pow2(200) * av) by (nonlinear_arith)
            requires
                pow2(129) <= av,
                pow2(200) >= 0,
        ;
    }
    lemma_over_finite(n, alpha, 200);
    lemma_over_close(n, alpha);
    lemma_over_order(n, n, alpha);
    let qv = q.value();
    let qa = qv * av;
    assert(nv * u == u * nv) by (nonlinear_arith);
    assert(u * nv <= 2 * (u * u)) by (nonlinear_arith)
        requires
            nv <= 2 * u,
            u > 0,
    ;
    assert(u * u == 0x100_0000 * (u * w)) by (nonlinear_arith)
        requires
            u == 0x100_0000 * w,
    ;
    assert(u <= u * w) by (nonlinear_arith)
        requires
            u > 0,
            w >= 1,
    ;
    assert(u * nv >= 0) by (nonlinear_arith)
        requires
            nv >= 0,
            u > 0,
    ;
    assert(size(qa - u * nv) <= 3 * (u * w));
    assert(size(qa - want) <= 12 * (u * w));
    // Held to one.
    assert(av * qv == qa) by (nonlinear_arith)
        requires
            qa == qv * av,
    ;
    if qv > u {
        assert(qa >= u * av) by (nonlinear_arith)
            requires
                qa == qv * av,
                qv > u,
                av >= 0,
        ;
        assert(s * bv <= s * a.value()) by (nonlinear_arith)
            requires
                bv <= a.value(),
                s >= 0,
        ;
        assert((u - s) * cv <= (u - s) * u) by (nonlinear_arith)
            requires
                cv <= u,
                u - s >= 0,
        ;
        assert(av * u == u * av) by (nonlinear_arith);
    }
    lemma_no_units(q);
}

/// The colour of a smudging dab, as light: each channel, with the alpha of the
/// dab, is in the measure of the smudge that same channel of the bucket, and for
/// the rest that of the brush.  Without smudge it is the colour of the brush.
pub proof fn law_smudged_colour_is_a_mean(
    base: RgbaF32,
    state: BrushState,
    smudge: Single,
    paint: Single,
)
    requires
        !(Single { bits: 0 }).lt(paint),
        proper(smudge),
        proper_colour(base),
        proper_bucket(state),
        state.smudge_ra.value() <= state.smudge_a.value(),
        state.smudge_ga.value() <= state.smudge_a.value(),
        state.smudge_ba.value() <= state.smudge_a.value(),
        target_alpha(state, smudge).value() >= pow2(129),
    ensures
        ({
            let c = smudged(base, state, smudge, paint);
            let alpha = target_alpha(state, smudge);
            &&& smudge.value() == 0 ==> c == (base.r, base.g, base.b)
            &&& smudge.value() > 0 ==> smudge_of(smudge, state.smudge_ra, base.r, alpha, c.0)
                && smudge_of(smudge, state.smudge_ga, base.g, alpha, c.1) && smudge_of(
                smudge,
                state.smudge_ba,
                base.b,
                alpha,
                c.2,
            )
        }),
{
    let alpha = target_alpha(state, smudge);
    lemma_one();
    lemma_pow2_pos(129);
    law_smudged_alpha_is_a_mean(state, smudge);
    if smudge.value() > 0 {
        lemma_smudge_of(smudge, state.smudge_ra, base.r, state.smudge_a, alpha);
        lemma_smudge_of(smudge, state.smudge_ga, base.g, state.smudge_a, alpha);
        lemma_smudge_of(smudge, state.smudge_ba, base.b, state.smudge_a, alpha);
    }
}

} // verus!
