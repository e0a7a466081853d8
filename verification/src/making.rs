//! What the numbers of a dab come to: its opacity, its edge and the way it is
//! drawn to the pixel grid.
//!
//! Values are in units of 2^-149, so that one is 2^149.
use crate::brush::BrushView;
use crate::color::unit;
use crate::dab::{multiplier, opacity, overlap, snapped, snapped_radius};
use crate::elementary::Answers;
use crate::means::{lemma_part_way, lemma_proper_product, lemma_rest, part_way, proper, size, spans};
use crate::portions::{held_value, lemma_held_value};
use crate::range::{lemma_no_units, lemma_one};
use crate::rng::BrushRng;
use crate::setting::BrushSetting;
use crate::single::{Single, HALF, ONE};
use crate::state::BrushState;
use crate::stroke::noisy;
use crate::values::SettingValues;
use vstd::arithmetic::power2::*;
use vstd::prelude::*;

verus! {

/// The factor on the opacity is one where the brush leaves the setting alone,
/// and else the setting, held to its range.
pub proof fn law_multiplier_is_one_or_the_setting(b: BrushView, sv: SettingValues)
    requires
        !b.base(BrushSetting::OpaqueMultiply).nan(),
        !sv.get(BrushSetting::OpaqueMultiply).nan(),
    ensures
        ({
            let alone = b.base(BrushSetting::OpaqueMultiply).value() == 0 && !b.mapped(
                BrushSetting::OpaqueMultiply,
            );
            &&& proper(multiplier(b, sv))
            &&& multiplier(b, sv).value() == (if alone {
                pow2(149) as int
            } else {
                held_value(sv.get(BrushSetting::OpaqueMultiply))
            })
        }),
{
    lemma_one();
    lemma_held_value(sv.get(BrushSetting::OpaqueMultiply));
}

/// The opacity that is set: opaque, times the factor, times the scale of the
/// dab.
pub open spec fn opacity_set(b: BrushView, sv: SettingValues, scale: Single) -> Single {
    unit(
        sv.get(BrushSetting::Opaque).max(Single { bits: 0 }).times(multiplier(b, sv)).times(scale),
    )
}

/// The opacity of a dab is the product of what is set for it; spread over the
/// dabs that overlap, what it lets through is the answer for the root of what
/// that would let through.
pub proof fn law_opacity_is_a_product(
    b: BrushView,
    sv: SettingValues,
    state: BrushState,
    scale: Single,
    m: Answers,
)
    requires
        proper(sv.get(BrushSetting::Opaque)),
        proper(multiplier(b, sv)),
        proper(scale),
        !b.base(BrushSetting::OpaqueLinearize).nan(),
    ensures
        ({
            let u = pow2(149) as int;
            let one = Single { bits: ONE };
            let set = opacity_set(b, sv, scale);
            let want = sv.get(BrushSetting::Opaque).value() * multiplier(b, sv).value()
                * scale.value();
            let spread = b.base(BrushSetting::OpaqueLinearize).value() > 0 && set.value() > 0;
            let lets = m.pow(
                one.minus(set),
                one.over(
                    overlap(state, b.base(BrushSetting::OpaqueLinearize).max(Single { bits: 0 })),
                ),
            );
            let o = opacity(b, sv, state, scale, m);
            &&& proper(set)
            &&& size(u * u * set.value() - want) <= u * u * pow2(127)
            &&& !spread ==> o == set
            &&& spread && proper(lets) ==> proper(o) && size(o.value() + lets.value() - u) <= pow2(
                125,
            )
        }),
{
    let u = pow2(149) as int;
    let w = pow2(126) as int;
    let one = Single { bits: ONE };
    let zero = Single { bits: 0 };
    let op = sv.get(BrushSetting::Opaque);
    let k = multiplier(b, sv);
    lemma_one();
    lemma_no_units(op);
    let first = op.max(zero);
    assert(first.value() == op.value() && proper(first));
    lemma_proper_product(first, k);
    let x = first.times(k);
    lemma_proper_product(x, scale);
    let y = x.times(scale);
    lemma_pow2_unfold(127);
    let (a, c, s, xv, yv) = (op.value(), k.value(), scale.value(), x.value(), y.value());
    let (e1, e2) = (u * xv - a * c, u * yv - xv * s);
    assert(u * u * yv - a * c * s == u * e2 + e1 * s) by (nonlinear_arith)
        requires
            e1 == u * xv - a * c,
            e2 == u * yv - xv * s,
    ;
    assert(size(u * e2) <= u * (u * w)) by (nonlinear_arith)
        requires
            size(e2) <= u * w,
            size(e2) == (if e2 < 0 {
                -e2
            } else {
                e2
            }),
            size(u * e2) == (if u * e2 < 0 {
                -(u * e2)
            } else {
                u * e2
            }),
            u > 0,
    ;
    assert(size(e1 * s) <= u * (u * w)) by (nonlinear_arith)
        requires
            size(e1) <= u * w,
            size(e1) == (if e1 < 0 {
                -e1
            } else {
                e1
            }),
            size(e1 * s) == (if e1 * s < 0 {
                -(e1 * s)
            } else {
                e1 * s
            }),
            0 <= s <= u,
    ;
    assert(u * (u * w) + u * (u * w) == u * u * (2 * w)) by (nonlinear_arith);
    let set = opacity_set(b, sv, scale);
    assert(set == y);
    let lin = b.base(BrushSetting::OpaqueLinearize).max(zero);
    if zero.lt(lin) && zero.lt(set) {
        let lets = m.pow(one.minus(set), one.over(overlap(state, lin)));
        if proper(lets) {
            lemma_rest(lets);
        }
    }
}

/// Snapping brings centre and radius the part of the way to the grid that the
/// setting says: to the middle of the pixel that the centre lies in, and to a
/// whole number of half pixels.
pub proof fn law_snapping_goes_part_of_the_way(
    x: Single,
    y: Single,
    radius: Single,
    snap: Single,
    k: nat,
)
    requires
        24 <= k <= 240,
        proper(snap),
        spans(x, k) && spans(x.floor().plus(Single { bits: HALF }), k),
        spans(y, k) && spans(y.floor().plus(Single { bits: HALF }), k),
        spans(radius, k) && spans(snapped_radius(radius, snap), k),
    ensures
        ({
            let (a, b, r) = snapped(x, y, radius, snap);
            let half = Single { bits: HALF };
            let near = (k - 21) as nat;
            &&& part_way(x, x.floor().plus(half), snap, a, near)
            &&& part_way(y, y.floor().plus(half), snap, b, near)
            &&& part_way(radius, snapped_radius(radius, snap), snap, r, near)
            &&& snap.value() == 0 ==> a == x && b == y && r == radius
        }),
{
    let half = Single { bits: HALF };
    lemma_one();
    lemma_part_way(x, x.floor().plus(half), snap, k);
    lemma_part_way(y, y.floor().plus(half), snap, k);
    lemma_part_way(radius, snapped_radius(radius, snap), snap, k);
    if snap.value() == 0 {
        lemma_still(x, x.floor().plus(half), snap, k);
        lemma_still(y, y.floor().plus(half), snap, k);
        lemma_still(radius, snapped_radius(radius, snap), snap, k);
    }
}

/// No part of the way is where it began.
proof fn lemma_still(a: Single, b: Single, part: Single, k: nat)
    requires
        spans(a, k),
        spans(b, k),
        proper(part),
        part.value() == 0,
    ensures
        part_way(a, b, part, a, (k - 21) as nat),
{
    let u = pow2(149) as int;
    lemma_one();
    lemma_pow2_pos((k - 21) as nat);
    assert((u - 0) * a.value() + 0 * b.value() == u * a.value());
    assert(u * pow2((k - 21) as nat) >= 0) by (nonlinear_arith)
        requires
            u > 0,
            pow2((k - 21) as nat) > 0,
    ;
}

/// Noise takes two normal numbers where its size is not too small, and none and
/// nothing otherwise.
pub proof fn law_noise_takes_two_numbers(rng: BrushRng, x: Single, y: Single, size_of: Single)
    ensures
        ({
            let (r, nx, ny) = noisy(rng, x, y, size_of);
            let some = (Single { bits: 0x3a83_126f }).lt(size_of);
            &&& !some ==> r == rng && nx == x && ny == y
            &&& some ==> r == rng.drawn_gauss().drawn_gauss() && nx == x.plus(
                rng.gauss().times(size_of),
            ) && ny == y.plus(rng.drawn_gauss().gauss().times(size_of))
        }),
{
}

} // verus!
