//! The shape of a dab: how much of it covers a pixel.
//!
//! Distances are squared and relative to the dab's radius, so that a dab
//! ends at one.
use crate::range::{
    at_most_one, in_unit, lemma_finite_or_infinite, lemma_infinite_term, lemma_nan_factors,
    lemma_nan_terms, lemma_nearest_at_least, lemma_nearest_at_most, lemma_negate, lemma_no_units,
    lemma_one, lemma_plus_at_least, lemma_plus_non_negative, lemma_plus_order, lemma_plus_value,
    lemma_rest_in_unit, lemma_rounded_exact, lemma_rounded_monotone, lemma_scaled_at_most_one,
    lemma_square_non_negative, lemma_times_non_negative, non_negative, FULL,
};
use crate::rounding::{lemma_code_error, lemma_magnitude_increases, magnitude};
use crate::single::{
    lemma_infinity_units, lemma_magnitude_zero, nearest, signed, Single, HALF, INFINITY, ONE,
};
use vstd::arithmetic::div_mod::*;
use vstd::arithmetic::power2::*;
use vstd::prelude::*;

verus! {

/// The radius of a disk of area one: the square root of 1 / pi.
pub const UNIT_DISK_RADIUS: u32 = 0x3f10_6eba;

pub open spec fn opa_at_spec(rr: Single, hardness: Single) -> Single {
    let zero = Single { bits: 0 };
    let one = Single { bits: ONE };
    if one.lt_spec(rr) {
        zero
    } else if one.le_spec(hardness) {
        if rr.le_spec(one) {
            one
        } else {
            zero
        }
    } else if hardness.le_spec(zero) {
        one.minus_spec(rr)
    } else if rr.le_spec(hardness) {
        one.plus_spec(rr.times_spec(one.minus_spec(one.over_spec(hardness))))
    } else {
        hardness.over_spec(one.minus_spec(hardness)).times_spec(one.minus_spec(rr))
    }
}

/// The falloff of a dab in two straight segments that meet where the squared
/// distance and the opacity are both `hardness`.
#[verifier::when_used_as_spec(opa_at_spec)]
pub fn opa_at(rr: Single, hardness: Single) -> (r: Single)
    ensures
        r == opa_at_spec(rr, hardness),
{
    let zero = Single { bits: 0 };
    let one = Single { bits: ONE };
    if one.lt(rr) {
        zero
    } else if one.le(hardness) {
        if rr.le(one) {
            one
        } else {
            zero
        }
    } else if hardness.le(zero) {
        one.minus(rr)
    } else if rr.le(hardness) {
        one.plus(rr.times(one.minus(one.over(hardness))))
    } else {
        hardness.over(one.minus(hardness)).times(one.minus(rr))
    }
}

/// An ellipse: how much longer it is than wide, and its direction.
#[derive(Clone, Copy, Debug, PartialEq, Eq, Structural)]
pub struct Ellipse {
    pub aspect: Single,
    pub cs: Single,
    pub sn: Single,
}

impl Ellipse {
    /// The squared distance of `(x, y)` from the centre, across the ellipse
    /// stretched to a circle.
    pub open spec fn squared_spec(self, x: Single, y: Single) -> Single {
        let across = y.times_spec(self.cs).minus_spec(x.times_spec(self.sn)).times_spec(
            self.aspect,
        );
        let along = y.times_spec(self.sn).plus_spec(x.times_spec(self.cs));
        across.times_spec(across).plus_spec(along.times_spec(along))
    }

    #[verifier::when_used_as_spec(squared_spec)]
    pub fn squared(self, x: Single, y: Single) -> (r: Single)
        ensures
            r == self.squared_spec(x, y),
    {
        let across = y.times(self.cs).minus(x.times(self.sn)).times(self.aspect);
        let along = y.times(self.sn).plus(x.times(self.cs));
        across.times(across).plus(along.times(along))
    }
}

pub open spec fn rr_at_spec(
    px: Single,
    py: Single,
    x: Single,
    y: Single,
    ellipse: Ellipse,
    inv_r2: Single,
) -> Single {
    let half = Single { bits: HALF };
    ellipse.squared_spec(
        px.plus_spec(half).minus_spec(x),
        py.plus_spec(half).minus_spec(y),
    ).times_spec(inv_r2)
}

/// The squared relative distance of the middle of pixel `(px, py)` from a
/// dab at `(x, y)`.
#[verifier::when_used_as_spec(rr_at_spec)]
pub fn rr_at(
    px: Single,
    py: Single,
    x: Single,
    y: Single,
    ellipse: Ellipse,
    inv_r2: Single,
) -> (r: Single)
    ensures
        r == rr_at_spec(px, py, x, y, ellipse, inv_r2),
{
    let half = Single { bits: HALF };
    ellipse.squared(px.plus(half).minus(x), py.plus(half).minus(y)).times(inv_r2)
}

pub open spec fn sign_point_in_line_spec(
    px: Single,
    py: Single,
    vx: Single,
    vy: Single,
) -> Single {
    px.minus_spec(vx).times_spec(vy.negate_spec()).minus_spec(
        vx.times_spec(py.minus_spec(vy)),
    )
}

/// On which side of the line through the origin and `(vx, vy)` a point lies.
#[verifier::when_used_as_spec(sign_point_in_line_spec)]
pub fn sign_point_in_line(px: Single, py: Single, vx: Single, vy: Single) -> (r: Single)
    ensures
        r == sign_point_in_line_spec(px, py, vx, vy),
{
    px.minus(vx).times(vy.negate()).minus(vx.times(py.minus(vy)))
}

pub open spec fn closest_point_to_line_spec(
    lx: Single,
    ly: Single,
    px: Single,
    py: Single,
) -> (Single, Single) {
    let l2 = lx.times_spec(lx).plus_spec(ly.times_spec(ly));
    let dot = px.times_spec(lx).plus_spec(py.times_spec(ly));
    let t = dot.over_spec(l2);
    (lx.times_spec(t), ly.times_spec(t))
}

/// The foot of a point on the line through the origin and `(lx, ly)`.
#[verifier::when_used_as_spec(closest_point_to_line_spec)]
pub fn closest_point_to_line(lx: Single, ly: Single, px: Single, py: Single) -> (r: (
    Single,
    Single,
))
    ensures
        r == closest_point_to_line_spec(lx, ly, px, py),
{
    let l2 = lx.times(lx).plus(ly.times(ly));
    let dot = px.times(lx).plus(py.times(ly));
    let t = dot.over(l2);
    (lx.times(t), ly.times(t))
}

/// The edges of pixel `(px, py)`, relative to a dab at `(x, y)` and with the
/// axes reversed.
pub struct PixelBox {
    pub left: Single,
    pub right: Single,
    pub top: Single,
    pub bottom: Single,
    pub middle_x: Single,
    pub middle_y: Single,
}

pub open spec fn pixel_box(px: Single, py: Single, x: Single, y: Single) -> PixelBox {
    let right = x.minus_spec(px);
    let bottom = y.minus_spec(py);
    PixelBox {
        left: right.minus_spec(Single { bits: ONE }),
        right,
        top: bottom.minus_spec(Single { bits: ONE }),
        bottom,
        middle_x: right.minus_spec(Single { bits: HALF }),
        middle_y: bottom.minus_spec(Single { bits: HALF }),
    }
}

/// The point of a pixel that counts as nearest to the dab: the dab's centre
/// if it is inside, else the foot of the pixel's middle on the dab's axis,
/// held to the pixel.
pub open spec fn nearest_point(p: PixelBox, ellipse: Ellipse) -> (Single, Single) {
    let zero = Single { bits: 0 };
    if p.left.lt_spec(zero) && zero.lt_spec(p.right) && p.top.lt_spec(zero) && zero.lt_spec(
        p.bottom,
    ) {
        (zero, zero)
    } else {
        let (nx, ny) = closest_point_to_line_spec(
            ellipse.cs,
            ellipse.sn,
            p.middle_x,
            p.middle_y,
        );
        (nx.clamp_spec(p.left, p.right), ny.clamp_spec(p.top, p.bottom))
    }
}

/// The squared relative distance of the nearest point.
pub open spec fn nearest_rr(p: PixelBox, ellipse: Ellipse, inv_r2: Single) -> Single {
    let zero = Single { bits: 0 };
    if p.left.lt_spec(zero) && zero.lt_spec(p.right) && p.top.lt_spec(zero) && zero.lt_spec(
        p.bottom,
    ) {
        zero
    } else {
        let n = nearest_point(p, ellipse);
        ellipse.squared_spec(n.0, n.1).times_spec(inv_r2)
    }
}

/// The squared distance of the point that counts as farthest: a disk of the
/// pixel's area reaches there from the nearest point, across the axis.
pub open spec fn farthest_squared(p: PixelBox, ellipse: Ellipse) -> Single {
    let n = nearest_point(p, ellipse);
    let reach = Single { bits: UNIT_DISK_RADIUS };
    let side = sign_point_in_line_spec(
        p.middle_x,
        p.middle_y,
        ellipse.cs,
        ellipse.sn.negate_spec(),
    );
    if side.lt_spec(Single { bits: 0 }) {
        ellipse.squared_spec(
            n.0.minus_spec(ellipse.sn.times_spec(reach)),
            n.1.plus_spec(ellipse.cs.times_spec(reach)),
        )
    } else {
        ellipse.squared_spec(
            n.0.plus_spec(ellipse.sn.times_spec(reach)),
            n.1.minus_spec(ellipse.cs.times_spec(reach)),
        )
    }
}

/// The distance that stands for a pixel that reaches from `near` to `far`.
pub open spec fn between_rr(near: Single, far: Single) -> Single {
    let one = Single { bits: ONE };
    one.minus_spec(
        one.minus_spec(near).over_spec(one.plus_spec(far.minus_spec(near))),
    )
}

pub open spec fn rr_at_aa_spec(
    px: Single,
    py: Single,
    x: Single,
    y: Single,
    ellipse: Ellipse,
    inv_r2: Single,
    r_aa_start: Single,
) -> Single {
    let p = pixel_box(px, py, x, y);
    let near = nearest_rr(p, ellipse, inv_r2);
    if (Single { bits: ONE }).lt_spec(near) {
        near
    } else {
        let r_far = farthest_squared(p, ellipse);
        let far = r_far.times_spec(inv_r2);
        if r_far.lt_spec(r_aa_start) {
            far.plus_spec(near).times_spec(Single { bits: HALF })
        } else {
            between_rr(near, far)
        }
    }
}

/// The squared relative distance of a pixel from a small dab, corrected for
/// the part of the pixel that the dab's edge cuts off.
#[verifier::when_used_as_spec(rr_at_aa_spec)]
pub fn rr_at_aa(
    px: Single,
    py: Single,
    x: Single,
    y: Single,
    ellipse: Ellipse,
    inv_r2: Single,
    r_aa_start: Single,
) -> (r: Single)
    ensures
        r == rr_at_aa_spec(px, py, x, y, ellipse, inv_r2, r_aa_start),
{
    let zero = Single { bits: 0 };
    let one = Single { bits: ONE };
    let half = Single { bits: HALF };
    let ghost p = pixel_box(px, py, x, y);
    let right = x.minus(px);
    let bottom = y.minus(py);
    let middle_x = right.minus(half);
    let middle_y = bottom.minus(half);
    let left = right.minus(one);
    let top = bottom.minus(one);
    let nearest_x;
    let nearest_y;
    let near;
    if left.lt(zero) && zero.lt(right) && top.lt(zero) && zero.lt(bottom) {
        nearest_x = zero;
        nearest_y = zero;
        near = zero;
    } else {
        let (nx, ny): (Single, Single) = closest_point_to_line(
            ellipse.cs,
            ellipse.sn,
            middle_x,
            middle_y,
        );
        nearest_x = nx.clamp(left, right);
        nearest_y = ny.clamp(top, bottom);
        near = ellipse.squared(nearest_x, nearest_y).times(inv_r2);
    }
    assert((nearest_x, nearest_y) == nearest_point(p, ellipse));
    assert(near == nearest_rr(p, ellipse, inv_r2));
    if one.lt(near) {
        return near;
    }
    let reach = Single { bits: UNIT_DISK_RADIUS };
    let side = sign_point_in_line(middle_x, middle_y, ellipse.cs, ellipse.sn.negate());
    let r_far = if side.lt(zero) {
        ellipse.squared(
            nearest_x.minus(ellipse.sn.times(reach)),
            nearest_y.plus(ellipse.cs.times(reach)),
        )
    } else {
        ellipse.squared(
            nearest_x.plus(ellipse.sn.times(reach)),
            nearest_y.minus(ellipse.cs.times(reach)),
        )
    };
    assert(r_far == farthest_squared(p, ellipse));
    let far = r_far.times(inv_r2);
    if r_far.lt(r_aa_start) {
        return far.plus(near).times(half);
    }
    one.minus(one.minus(near).over(one.plus(far.minus(near))))
}

/// A dab as a tile sees it: its centre in the tile, its extent, and what is
/// worked out once for all pixels.
#[derive(Clone, Copy, Debug, PartialEq, Eq, Structural)]
pub struct Shape {
    pub x: Single,
    pub y: Single,
    pub hardness: Single,
    pub ellipse: Ellipse,
    pub inv_r2: Single,
    /// Where pixels begin to be cut by the edge of a small dab; negative for
    /// dabs that are large enough to do without.
    pub r_aa_start: Single,
    /// Where the feather of a solid disk ends; one if there is none.
    pub edge: Single,
}

impl Shape {
    pub open spec fn distance_spec(self, px: Single, py: Single) -> Single {
        if (Single { bits: 0 }).le_spec(self.r_aa_start) {
            rr_at_aa_spec(px, py, self.x, self.y, self.ellipse, self.inv_r2, self.r_aa_start)
        } else {
            rr_at_spec(px, py, self.x, self.y, self.ellipse, self.inv_r2)
        }
    }

    pub open spec fn opacity_spec(self, rr: Single) -> Single {
        let one = Single { bits: ONE };
        if one.lt_spec(rr) {
            if one.le_spec(self.hardness) && rr.lt_spec(self.edge) {
                self.edge.minus_spec(rr).over_spec(self.edge.minus_spec(one))
            } else {
                Single { bits: 0 }
            }
        } else {
            opa_at_spec(rr, self.hardness)
        }
    }

    pub open spec fn coverage_spec(self, px: i32, py: i32) -> u32 {
        let rr = self.distance_spec(Single::from_i32_spec(px), Single::from_i32_spec(py));
        self.opacity_spec(rr).times_spec(Single { bits: FULL }).to_u32_spec()
    }

    /// The extent of a dab is a square of its radius, which has no sign.
    pub open spec fn wf(self) -> bool {
        !self.inv_r2.negative()
    }

    /// The squared relative distance of a pixel.
    #[verifier::when_used_as_spec(distance_spec)]
    pub fn distance(self, px: Single, py: Single) -> (r: Single)
        ensures
            r == self.distance_spec(px, py),
    {
        if (Single { bits: 0 }).le(self.r_aa_start) {
            rr_at_aa(px, py, self.x, self.y, self.ellipse, self.inv_r2, self.r_aa_start)
        } else {
            rr_at(px, py, self.x, self.y, self.ellipse, self.inv_r2)
        }
    }

    /// The opacity at a squared relative distance.
    #[verifier::when_used_as_spec(opacity_spec)]
    pub fn opacity(self, rr: Single) -> (r: Single)
        ensures
            r == self.opacity_spec(rr),
    {
        let one = Single { bits: ONE };
        if one.lt(rr) {
            if one.le(self.hardness) && rr.lt(self.edge) {
                self.edge.minus(rr).over(self.edge.minus(one))
            } else {
                Single { bits: 0 }
            }
        } else {
            opa_at(rr, self.hardness)
        }
    }

    /// How much of a pixel the dab covers, in fix15.
    #[verifier::when_used_as_spec(coverage_spec)]
    pub fn coverage(self, px: i32, py: i32) -> (r: u32)
        requires
            self.wf(),
        ensures
            r == self.coverage_spec(px, py),
            r <= 32768,
    {
        proof {
            law_coverage_is_at_most_one(self, px, py);
        }
        let rr = self.distance(Single::from_i32(px), Single::from_i32(py));
        self.opacity(rr).times(Single { bits: FULL }).to_u32()
    }
}

proof fn lemma_squared_non_negative(e: Ellipse, x: Single, y: Single)
    ensures
        non_negative(e.squared_spec(x, y)),
{
    let across = y.times_spec(e.cs).minus_spec(x.times_spec(e.sn)).times_spec(e.aspect);
    let along = y.times_spec(e.sn).plus_spec(x.times_spec(e.cs));
    lemma_square_non_negative(across);
    lemma_square_non_negative(along);
    lemma_plus_non_negative(across.times_spec(across), along.times_spec(along));
}

/// One over a number up to one is at least one.
proof fn lemma_inverse_at_least_one(h: Single)
    requires
        !h.nan(),
        0 < h.value() <= pow2(149),
    ensures
        ({
            let i = (Single { bits: ONE }).over_spec(h);
            !i.nan() && i.value() >= pow2(149)
        }),
{
    reveal(Single::over_spec);
    lemma_one();
    lemma_infinity_units();
    lemma_no_units(h);
    let w = pow2(149);
    assert(w * w >= w * h.units()) by (nonlinear_arith)
        requires
            0 <= h.units() <= w,
    ;
    lemma_nearest_at_least(w * w, h.units(), ONE as nat);
}

/// Adding nothing positive to one leaves at most one.
proof fn lemma_one_plus_at_most(y: Single)
    requires
        y.nan() || y.value() <= 0,
    ensures
        at_most_one((Single { bits: ONE }).plus_spec(y)),
{
    let one = Single { bits: ONE };
    lemma_one();
    if y.finite() {
        lemma_plus_value(one, y);
        lemma_rounded_monotone(one.value() + y.value(), one.value());
        lemma_rounded_exact(one);
    } else {
        reveal(Single::plus_spec);
        lemma_infinity_units();
    }
}

/// The first segment of the falloff stays at or below one.
proof fn lemma_inner_segment(rr: Single, h: Single)
    requires
        non_negative(rr),
        !h.nan(),
        0 < h.value() <= pow2(149),
    ensures
        at_most_one(
            (Single { bits: ONE }).plus_spec(
                rr.times_spec(
                    (Single { bits: ONE }).minus_spec((Single { bits: ONE }).over_spec(h)),
                ),
            ),
        ),
{
    let one = Single { bits: ONE };
    let i = one.over_spec(h);
    let d = one.minus_spec(i);
    lemma_one();
    lemma_inverse_at_least_one(h);
    assert(!d.nan() && d.value() <= 0) by {
        if i.finite() {
            lemma_plus_value(one, i.negate_spec());
            lemma_rounded_monotone(one.value() - i.value(), 0);
        } else {
            reveal(Single::plus_spec);
            lemma_infinity_units();
        }
    }
    let y = rr.times_spec(d);
    assert(y.nan() || y.value() <= 0) by {
        lemma_times_non_negative(rr, d.negate_spec());
        reveal(Single::times_spec);
        lemma_no_units(y);
    }
    lemma_one_plus_at_most(y);
}

/// The largest number below one is one minus 2^-24.
proof fn lemma_below_one(h: Single)
    requires
        !h.nan(),
        0 <= h.value() < pow2(149),
    ensures
        h.units() + pow2(125) <= pow2(149),
        pow2(149) == 0x100_0000 * pow2(125),
{
    lemma_one();
    assert(pow2(23) == 0x80_0000 && pow2(24) == 0x100_0000) by {
        lemma2_to64();
    }
    lemma_pow2_adds(24, 125);
    let top: nat = 0x3f7f_ffff;
    assert(top / 0x80_0000 == 126 && top % 0x80_0000 == 0x7f_ffff);
    assert(magnitude(top, 24) == (0x7f_ffff + pow2(23)) * pow2(125));
    assert(0xff_ffff * pow2(125) + pow2(125) == pow2(149));
    if h.mag() > top {
        if h.mag() > ONE {
            lemma_magnitude_increases(ONE as nat, h.mag(), 24);
        }
    } else if h.mag() < top {
        lemma_magnitude_increases(h.mag(), top, 24);
    }
}

proof fn lemma_product_at_most_one(u: nat, c: nat, h: nat, w: nat, e: nat)
    requires
        w == 0x100_0000 * e,
        h + e <= w,
        c <= w,
        e >= 0x80_0000,
        2 * (u * c) * 0x80_0000 <= 2 * (h * w) * 0x80_0000 + h * w + c * 0x80_0000,
    ensures
        u * c <= w * w,
{
    assert(h * w <= w * w - e * w) by (nonlinear_arith)
        requires
            h + e <= w,
    ;
    assert(w * w == 0x100_0000 * (e * w)) by (nonlinear_arith)
        requires
            w == 0x100_0000 * e,
    ;
    assert(e * w >= 0x80_0000 * w) by (nonlinear_arith)
        requires
            e >= 0x80_0000,
            w >= 0,
    ;
}

/// The second segment of the falloff stays at or below one.
proof fn lemma_outer_segment(rr: Single, h: Single)
    requires
        !rr.nan(),
        !h.nan(),
        0 < h.value() < pow2(149),
        h.value() < rr.value() <= pow2(149),
    ensures
        at_most_one(
            h.over_spec((Single { bits: ONE }).minus_spec(h)).times_spec(
                (Single { bits: ONE }).minus_spec(rr),
            ),
        ),
{
    let one = Single { bits: ONE };
    let w = pow2(149);
    let e = pow2(125);
    let c = one.minus_spec(h);
    let b = one.minus_spec(rr);
    let a = h.over_spec(c);
    lemma_one();
    lemma_infinity_units();
    lemma_below_one(h);
    lemma_rest_in_unit(h);
    lemma_rest_in_unit(rr);
    lemma_plus_value(one, h.negate_spec());
    lemma_plus_value(one, rr.negate_spec());
    lemma_rounded_monotone(w - rr.value(), w - h.value());
    assert(b.value() <= c.value());
    assert(c.units() >= e && !c.negative() && c.finite()) by {
        lemma_step_units();
        lemma_nearest_at_least((w - h.value()) as nat, 1, 0x3380_0000);
        lemma_pow2_pos(125);
    }
    lemma_pow2_pos(125);
    lemma_no_units(c);
    let n = h.units() * w;
    let k = nearest(n, c.units());
    assert(a == signed(h.negative(), k)) by {
        reveal(Single::over_spec);
    }
    assert(k <= 0x4b80_0000) by {
        lemma_step_units();
        assert(n <= pow2(173) * c.units()) by (nonlinear_arith)
            requires
                n == h.units() * w,
                h.units() <= w,
                c.units() >= e,
                pow2(173) * e == w * w,
                w > 0,
                pow2(173) > 0,
        ;
        lemma_nearest_at_most(n, c.units(), 0x4b80_0000);
    }
    lemma_code_error(n, c.units(), 24);
    assert(pow2(23) == 0x80_0000) by {
        lemma2_to64();
    }
    assert(e >= 0x80_0000) by {
        lemma_pow2_strictly_increases(23, 125);
    }
    lemma_product_at_most_one(a.units(), c.units(), h.units(), w, e);
    assert(a.units() * b.units() <= w * w) by (nonlinear_arith)
        requires
            a.units() * c.units() <= w * w,
            0 <= b.units() <= c.units(),
    ;
    lemma_nearest_at_most(a.units() * b.units(), w, ONE as nat);
    reveal(Single::times_spec);
}

/// What the patterns of 2^-24 and 2^24 stand for.
proof fn lemma_step_units()
    ensures
        magnitude(0x3380_0000, 24) == pow2(125),
        magnitude(0x4b80_0000, 24) == pow2(173),
        pow2(173) * pow2(125) == pow2(149) * pow2(149),
        pow2(173) > 0,
{
    assert(pow2(23) == 0x80_0000) by {
        lemma2_to64();
    }
    lemma_pow2_adds(23, 102);
    lemma_pow2_adds(23, 150);
    lemma_pow2_adds(173, 125);
    lemma_pow2_adds(149, 149);
    lemma_pow2_pos(173);
    assert(0x3380_0000nat / 0x80_0000 == 103 && 0x3380_0000nat % 0x80_0000 == 0);
    assert(0x4b80_0000nat / 0x80_0000 == 151 && 0x4b80_0000nat % 0x80_0000 == 0);
    assert(magnitude(0x3380_0000, 24) == (0 + pow2(23)) * pow2(102));
    assert(magnitude(0x4b80_0000, 24) == (0 + pow2(23)) * pow2(150));
}

/// The falloff never exceeds one.
pub proof fn law_falloff_is_at_most_one(rr: Single, hardness: Single)
    requires
        non_negative(rr),
    ensures
        at_most_one(opa_at_spec(rr, hardness)),
{
    let one = Single { bits: ONE };
    let zero = Single { bits: 0 };
    lemma_one();
    if one.lt_spec(rr) || one.le_spec(hardness) {
    } else if hardness.le_spec(zero) {
        lemma_infinity_units();
        lemma_rest_in_unit(rr);
    } else if rr.le_spec(hardness) {
        lemma_inner_segment(rr, hardness);
    } else if rr.nan() || hardness.nan() {
        lemma_nan_spreads(rr, hardness);
    } else {
        lemma_outer_segment(rr, hardness);
    }
}

proof fn lemma_nan_spreads(rr: Single, hardness: Single)
    requires
        rr.nan() || hardness.nan(),
    ensures
        hardness.over_spec((Single { bits: ONE }).minus_spec(hardness)).times_spec(
            (Single { bits: ONE }).minus_spec(rr),
        ).nan(),
{
    let one = Single { bits: ONE };
    let a = hardness.over_spec(one.minus_spec(hardness));
    let b = one.minus_spec(rr);
    if rr.nan() {
        lemma_nan_terms(one, rr);
    } else {
        lemma_nan_factors(hardness, one.minus_spec(hardness));
    }
    lemma_nan_factors(a, b);
}

/// The feather of a solid disk stays at or below one.
proof fn lemma_feather(rr: Single, edge: Single)
    requires
        (Single { bits: ONE }).lt_spec(rr),
        rr.lt_spec(edge),
    ensures
        at_most_one(edge.minus_spec(rr).over_spec(edge.minus_spec(Single { bits: ONE }))),
{
    let one = Single { bits: ONE };
    let a = edge.minus_spec(rr);
    let b = edge.minus_spec(one);
    lemma_one();
    lemma_infinity_units();
    if edge.finite() {
        assert(rr.finite()) by {
            if !rr.finite() {
                lemma_finite_or_infinite(rr);
                lemma_magnitude_increases(edge.mag(), INFINITY as nat, 24);
            }
        }
        lemma_plus_value(edge, rr.negate_spec());
        lemma_plus_value(edge, one.negate_spec());
        lemma_rounded_monotone(edge.value() - rr.value(), edge.value() - one.value());
        lemma_rounded_monotone(0, edge.value() - rr.value());
        lemma_no_units(b);
        reveal(Single::over_spec);
        if !a.nan() && a.finite() && b.finite() && !b.zero() {
            assert(a.units() * pow2(149) <= pow2(149) * b.units()) by (nonlinear_arith)
                requires
                    a.units() <= b.units(),
            ;
            lemma_nearest_at_most(a.units() * pow2(149), b.units(), ONE as nat);
        }
        if !a.finite() {
            lemma_finite_or_infinite(a);
            if b.finite() {
                lemma_magnitude_increases(b.mag(), INFINITY as nat, 24);
            }
        }
        if b.zero() {
            lemma_magnitude_zero();
            lemma_no_units(a);
        }
    } else {
        reveal(Single::plus_spec);
        reveal(Single::over_spec);
    }
}

/// A quotient of a number by a larger one is in `[0, 1]`.
proof fn lemma_quotient_in_unit(v: Single, d: Single)
    requires
        v.finite(),
        !d.nan(),
        0 <= v.value() <= d.value(),
    ensures
        in_unit(v.over_spec(d)),
{
    reveal(Single::over_spec);
    lemma_one();
    lemma_no_units(v);
    lemma_no_units(d);
    lemma_magnitude_zero();
    if d.finite() && !d.zero() {
        let n = v.units() * pow2(149);
        assert(n <= pow2(149) * d.units()) by (nonlinear_arith)
            requires
                n == v.units() * pow2(149),
                v.units() <= d.units(),
        ;
        lemma_nearest_at_most(n, d.units(), ONE as nat);
        if v.negative() {
            assert(n == 0) by (nonlinear_arith)
                requires
                    n == v.units() * pow2(149),
                    v.units() == 0,
            ;
            assert(0 <= magnitude(0, 24) * d.units());
            lemma_nearest_at_most(0, d.units(), 0);
        }
    }
}

/// The share of a pixel that is worked with is at least what is visible of
/// its nearest point.
proof fn lemma_visible_part(near: Single, far: Single)
    requires
        !near.nan(),
        in_unit(near),
        !far.nan(),
        non_negative(far),
    ensures
        ({
            let one = Single { bits: ONE };
            let d = one.plus_spec(far.minus_spec(near));
            !d.nan() && d.value() >= one.minus_spec(near).value()
        }),
{
    let one = Single { bits: ONE };
    let n = near.negate_spec();
    let delta = far.plus_spec(n);
    let v = one.plus_spec(n);
    assert(one.minus_spec(near) == v && far.minus_spec(near) == delta);
    lemma_one();
    lemma_infinity_units();
    assert(near.finite());
    lemma_negate(near);
    lemma_rest_in_unit(near);
    if far.finite() {
        lemma_plus_at_least(far, n, n);
        if delta.finite() {
            lemma_plus_order(one, n, one, delta);
            lemma_plus_value(one, delta);
        } else {
            lemma_finite_or_infinite(delta);
            lemma_infinite_term(delta, one);
        }
    } else {
        lemma_finite_or_infinite(far);
        lemma_infinite_term(far, n);
        lemma_infinite_term(far, one);
    }
}

proof fn lemma_between_of_nan(near: Single, far: Single)
    requires
        near.nan() || far.nan(),
    ensures
        between_rr(near, far).nan(),
{
    let one = Single { bits: ONE };
    let v = one.minus_spec(near);
    let d = one.plus_spec(far.minus_spec(near));
    lemma_nan_terms(far, near);
    lemma_nan_terms(one, far.minus_spec(near));
    lemma_nan_factors(v, d);
    lemma_nan_terms(one, v.over_spec(d));
}

/// The corrected distance of a small dab is not negative.
proof fn lemma_between_non_negative(near: Single, far: Single)
    requires
        in_unit(near),
        non_negative(far),
    ensures
        non_negative(between_rr(near, far)),
{
    let one = Single { bits: ONE };
    if near.nan() || far.nan() {
        lemma_between_of_nan(near, far);
    } else {
        let v = one.minus_spec(near);
        let d = one.plus_spec(far.minus_spec(near));
        lemma_one();
        lemma_infinity_units();
        lemma_rest_in_unit(near);
        lemma_visible_part(near, far);
        lemma_quotient_in_unit(v, d);
        lemma_rest_in_unit(v.over_spec(d));
    }
}

proof fn lemma_distance_non_negative(shape: Shape, px: Single, py: Single)
    requires
        shape.wf(),
    ensures
        non_negative(shape.distance_spec(px, py)),
{
    lemma_one();
    let half = Single { bits: HALF };
    if (Single { bits: 0 }).le_spec(shape.r_aa_start) {
        let p = pixel_box(px, py, shape.x, shape.y);
        let near = nearest_rr(p, shape.ellipse, shape.inv_r2);
        let n = nearest_point(p, shape.ellipse);
        lemma_squared_non_negative(shape.ellipse, n.0, n.1);
        lemma_times_non_negative(shape.ellipse.squared_spec(n.0, n.1), shape.inv_r2);
        assert(non_negative(near));
        if !(Single { bits: ONE }).lt_spec(near) {
            let r_far = farthest_squared(p, shape.ellipse);
            let reach = Single { bits: UNIT_DISK_RADIUS };
            lemma_squared_non_negative(
                shape.ellipse,
                n.0.minus_spec(shape.ellipse.sn.times_spec(reach)),
                n.1.plus_spec(shape.ellipse.cs.times_spec(reach)),
            );
            lemma_squared_non_negative(
                shape.ellipse,
                n.0.plus_spec(shape.ellipse.sn.times_spec(reach)),
                n.1.minus_spec(shape.ellipse.cs.times_spec(reach)),
            );
            let far = r_far.times_spec(shape.inv_r2);
            lemma_times_non_negative(r_far, shape.inv_r2);
            lemma_plus_non_negative(far, near);
            assert(non_negative(half)) by {
                assert(!half.negative());
            }
            lemma_times_non_negative(far.plus_spec(near), half);
            lemma_between_non_negative(near, far);
        }
    } else {
        let x = px.plus_spec(half).minus_spec(shape.x);
        let y = py.plus_spec(half).minus_spec(shape.y);
        lemma_squared_non_negative(shape.ellipse, x, y);
        lemma_times_non_negative(shape.ellipse.squared_spec(x, y), shape.inv_r2);
    }
}

/// A pixel is never covered more than fully.
pub proof fn law_coverage_is_at_most_one(shape: Shape, px: i32, py: i32)
    requires
        shape.wf(),
    ensures
        shape.coverage_spec(px, py) <= 32768,
{
    let rr = shape.distance_spec(Single::from_i32_spec(px), Single::from_i32_spec(py));
    lemma_distance_non_negative(shape, Single::from_i32_spec(px), Single::from_i32_spec(py));
    lemma_one();
    if (Single { bits: ONE }).lt_spec(rr) {
        if rr.lt_spec(shape.edge) {
            lemma_feather(rr, shape.edge);
        }
    } else {
        law_falloff_is_at_most_one(rr, shape.hardness);
    }
    lemma_scaled_at_most_one(shape.opacity_spec(rr));
}

} // verus!
