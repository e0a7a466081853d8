//! The form of a dab: how it fades from its centre to its edge, and how an
//! ellipse is longer than wide.
//!
//! Values are in units of 2^-149, so that one is 2^149.
use crate::geometry::{law_falloff_is_at_most_one, opa_at_spec, Ellipse};
use crate::means::{
    close, lemma_over_close, lemma_over_finite, lemma_plus_close, lemma_rest, lemma_times_close,
    lemma_times_finite, proper, size,
};
use crate::range::{
    lemma_known, lemma_negate, lemma_no_units, lemma_one, lemma_over_order, lemma_plus_at_least,
    lemma_plus_near, lemma_plus_value, lemma_rounded_exact, lemma_rounded_monotone,
    lemma_times_non_negative,
};
use crate::rounding::lemma_magnitude_increases;
use crate::single::{
    law_minus_itself, law_times_commutes, law_times_nothing, lemma_infinity_units, Single, ONE,
};
use vstd::arithmetic::power2::*;
use vstd::prelude::*;

verus! {

proof fn lemma_inner_errors(u: int, w: int, h: int, q: int, i: int, n: int, t: int, r: int)
    requires
        w >= 1,
        u == 0x100_0000 * w,
        0x10_0000 * h >= u,
        h < u,
        0 <= q <= h,
        close(i * h, u * u, h),
        close(n, u - i, 1),
        close(u * t, q * n, u),
        size(r - (u + t)) <= 2 * w,
    ensures
        size(h * (u - r) - q * (u - h)) <= u * (16 * w),
{
    let uu = u * u;
    let ih = i * h;
    assert(h <= uu) by (nonlinear_arith)
        requires
            0 < h < u,
            uu == u * u,
    ;
    assert(size(ih - uu) <= 2 * (u * w)) by {
        assert(uu == 0x100_0000 * (u * w)) by (nonlinear_arith)
            requires
                uu == u * u,
                u == 0x100_0000 * w,
        ;
        assert(u <= u * w) by (nonlinear_arith)
            requires
                w >= 1,
                u > 0,
        ;
    }
    // The quotient is at least one and at most about one over h.
    assert(i >= u / 2) by (nonlinear_arith)
        requires
            ih == i * h,
            ih >= uu - 2 * (u * w),
            uu == u * u,
            u == 0x100_0000 * w,
            0 < h < u,
            w >= 1,
    ;
    let e1 = n - (u - i);
    let e2 = u * t - q * n;
    let e3 = r - (u + t);
    let e4 = ih - uu;
    assert(i <= 0x20_0000 * u) by (nonlinear_arith)
        requires
            ih == i * h,
            ih <= uu + 2 * (u * w),
            uu == u * u,
            u == 0x100_0000 * w,
            0x10_0000 * h >= u,
            u > 0,
    ;
    let he1 = h * size(e1);
    assert(0x100_0000 * he1 <= h * (i + u) + 0x80_0000 * h) by (nonlinear_arith)
        requires
            0x100_0000 * size(e1) <= size(u - i) + 0x80_0000,
            size(u - i) <= i + u,
            he1 == h * size(e1),
            h > 0,
    ;
    assert(h * (i + u) == ih + h * u) by (nonlinear_arith)
        requires
            ih == i * h,
    ;
    assert(h * u <= uu) by (nonlinear_arith)
        requires
            h < u,
            uu == u * u,
            u > 0,
    ;
    assert(uu == 0x100_0000 * (u * w)) by (nonlinear_arith)
        requires
            uu == u * u,
            u == 0x100_0000 * w,
    ;
    assert(u * w >= u) by (nonlinear_arith)
        requires
            w >= 1,
            u > 0,
    ;
    assert(he1 <= 3 * (u * w));
    let qn = q * n;
    assert(size(qn) <= 3 * uu) by {
        let s = size(n);
        assert(s <= i + u + size(e1));
        assert(h * s <= ih + h * u + he1) by (nonlinear_arith)
            requires
                s <= i + u + size(e1),
                ih == i * h,
                he1 == h * size(e1),
                h > 0,
        ;
        assert(size(qn) <= h * s) by (nonlinear_arith)
            requires
                qn == q * n,
                0 <= q <= h,
                s == size(n),
                size(n) == (if n < 0 {
                    -n
                } else {
                    n
                }),
                size(qn) == (if qn < 0 {
                    -qn
                } else {
                    qn
                }),
        ;
    }
    assert(size(e2) <= 4 * (u * w));
    // u h (u - r) = -h (u t) - u h e3
    let x = h * (u - r) - q * (u - h);
    assert(u * x == -(h * e2) - (h * q) * e1 + q * e4 - u * (h * e3)) by {
        lemma_inner_identity(u, h, q, i, n, t, r);
    }
    let ww = u * (u * w);
    assert(size(h * e2) <= 4 * ww) by (nonlinear_arith)
        requires
            size(e2) <= 4 * (u * w),
            size(e2) == (if e2 < 0 {
                -e2
            } else {
                e2
            }),
            size(h * e2) == (if h * e2 < 0 {
                -(h * e2)
            } else {
                h * e2
            }),
            0 < h < u,
            ww == u * (u * w),
    ;
    assert(size((h * q) * e1) <= 3 * ww) by (nonlinear_arith)
        requires
            he1 == h * size(e1),
            he1 <= 3 * (u * w),
            0 <= q < u,
            size(e1) == (if e1 < 0 {
                -e1
            } else {
                e1
            }),
            size((h * q) * e1) == (if (h * q) * e1 < 0 {
                -((h * q) * e1)
            } else {
                (h * q) * e1
            }),
            ww == u * (u * w),
            h > 0,
    ;
    assert(size(q * e4) <= 2 * ww) by (nonlinear_arith)
        requires
            size(e4) <= 2 * (u * w),
            size(e4) == (if e4 < 0 {
                -e4
            } else {
                e4
            }),
            size(q * e4) == (if q * e4 < 0 {
                -(q * e4)
            } else {
                q * e4
            }),
            0 <= q < u,
            ww == u * (u * w),
    ;
    assert(size(u * (h * e3)) <= 2 * ww) by (nonlinear_arith)
        requires
            size(e3) <= 2 * w,
            size(e3) == (if e3 < 0 {
                -e3
            } else {
                e3
            }),
            size(u * (h * e3)) == (if u * (h * e3) < 0 {
                -(u * (h * e3))
            } else {
                u * (h * e3)
            }),
            0 < h < u,
            ww == u * (u * w),
    ;
    assert(size(u * x) <= 11 * ww);
    assert(size(x) <= u * (16 * w)) by (nonlinear_arith)
        requires
            size(u * x) <= 11 * ww,
            ww == u * (u * w),
            size(u * x) == (if u * x < 0 {
                -(u * x)
            } else {
                u * x
            }),
            size(x) == (if x < 0 {
                -x
            } else {
                x
            }),
            u > 0,
            w > 0,
    ;
}

proof fn lemma_inner_identity(u: int, h: int, q: int, i: int, n: int, t: int, r: int)
    ensures
        u * (h * (u - r) - q * (u - h)) == -(h * (u * t - q * n)) - (h * q) * (n - (u - i)) + q * (i
            * h - u * u) - u * (h * (r - (u + t))),
{
    let (a, b) = (h * q, u * h);
    assert(u * (h * (u - r) - q * (u - h)) == b * u - b * r - u * u * q + u * a) by (nonlinear_arith)
        requires
            a == h * q,
            b == u * h,
    ;
    assert(h * (u * t - q * n) == b * t - a * n) by (nonlinear_arith)
        requires
            a == h * q,
            b == u * h,
    ;
    assert(a * (n - (u - i)) == a * n - a * u + a * i) by (nonlinear_arith);
    assert(q * (i * h - u * u) == a * i - u * u * q) by (nonlinear_arith)
        requires
            a == h * q,
    ;
    assert(u * (h * (r - (u + t))) == b * r - b * u - b * t) by (nonlinear_arith)
        requires
            b == u * h,
    ;
    assert(u * a == a * u) by (nonlinear_arith);
}

/// Inside the hardness a dab fades on the straight line from one at its centre
/// to the hardness where the squared distance is the hardness.
pub proof fn law_inside_fades_from_one(rr: Single, hardness: Single)
    requires
        proper(rr),
        hardness.finite(),
        pow2(129) <= hardness.value() < pow2(149),
        rr.value() <= hardness.value(),
    ensures
        ({
            let u = pow2(149) as int;
            let (h, q) = (hardness.value(), rr.value());
            let r = opa_at_spec(rr, hardness);
            &&& r.finite()
            &&& size(h * (u - r.value()) - q * (u - h)) <= u * pow2(129)
            &&& q == 0 ==> r.value() == u
        }),
{
    let u = pow2(149) as int;
    let w = pow2(125) as int;
    let one = Single { bits: ONE };
    let i = one.over_spec(hardness);
    let n = one.minus_spec(i);
    let t = rr.times_spec(n);
    let r = one.plus_spec(t);
    let (h, q) = (hardness.value(), rr.value());
    lemma_one();
    lemma_pow2_pos(125);
    lemma_pow2_adds(24, 125);
    lemma_pow2_adds(20, 129);
    lemma_pow2_adds(4, 125);
    lemma_pow2_unfold(126);
    lemma_pow2_unfold(127);
    assert(pow2(24) == 0x100_0000 && pow2(20) == 0x10_0000 && pow2(4) == 16) by {
        lemma2_to64();
    }
    assert(u * u < pow2(171) * h) by {
        lemma_pow2_adds(171, 129);
        lemma_pow2_adds(149, 149);
        lemma_pow2_strictly_increases(298, 300);
        assert(pow2(171) * pow2(129) <= pow2(171) * h) by (nonlinear_arith)
            requires
                pow2(129) <= h,
                pow2(171) >= 0,
        ;
    }
    lemma_over_finite(one, hardness, 171);
    lemma_over_close(one, hardness);
    lemma_over_order(one, one, hardness);
    let iv = i.value();
    assert(iv <= pow2(172)) by {
        lemma_pow2_unfold(172);
        let ih = iv * h;
        assert(h <= u * u) by (nonlinear_arith)
            requires
                0 < h < u,
        ;
        assert(ih <= 2 * (u * u));
        assert(iv <= 2 * pow2(171)) by (nonlinear_arith)
            requires
                iv * h <= 2 * (u * u),
                u * u < pow2(171) * h,
                h > 0,
        ;
    }
    lemma_negate(i);
    lemma_pow2_strictly_increases(149, 172);
    lemma_pow2_unfold(173);
    lemma_plus_near(one, i.negate_spec(), 173);
    lemma_plus_close(one, i.negate_spec());
    let nv = n.value();
    assert(size(nv) <= pow2(174)) by {
        lemma_pow2_unfold(174);
        lemma_pow2_strictly_increases(149, 173);
    }
    assert(size(q) * size(nv) < pow2(176) * pow2(149)) by {
        lemma_pow2_unfold(175);
        lemma_pow2_unfold(176);
        lemma_pow2_pos(174);
        assert(q * size(nv) <= u * pow2(174)) by (nonlinear_arith)
            requires
                0 <= q <= u,
                0 <= size(nv) <= pow2(174),
        ;
        assert(u * pow2(174) < (4 * pow2(174)) * u) by (nonlinear_arith)
            requires
                u > 0,
                pow2(174) > 0,
        ;
    }
    lemma_times_finite(rr, n, 176);
    lemma_times_close(rr, n);
    lemma_inner_bounds(u, w, h, q, iv, nv, t.value());
    lemma_pow2_unfold(150);
    lemma_pow2_unfold(151);
    lemma_pow2_unfold(152);
    lemma_plus_near(one, t, 151);
    lemma_inner_errors(u, w, h, q, iv, nv, t.value(), r.value());
    if q == 0 {
        lemma_no_units(rr);
        law_times_nothing(rr, n);
        lemma_no_units(t);
        lemma_plus_value(one, t);
        lemma_rounded_exact(one);
    }
}

/// The falling part is between minus two and two.
proof fn lemma_inner_bounds(u: int, w: int, h: int, q: int, i: int, n: int, t: int)
    requires
        w >= 1,
        u == 0x100_0000 * w,
        0x10_0000 * h >= u,
        h < u,
        0 <= q <= h,
        i >= 0,
        close(i * h, u * u, h),
        close(n, u - i, 1),
        close(u * t, q * n, u),
    ensures
        size(t) <= 2 * u,
{
    let uu = u * u;
    let ih = i * h;
    assert(h <= uu) by (nonlinear_arith)
        requires
            0 < h < u,
            uu == u * u,
    ;
    assert(0x100_0000 * ih <= 0x100_0001 * uu + 0x80_0000 * h);
    assert(h <= u);
    assert(0x100_0000 * u <= uu) by (nonlinear_arith)
        requires
            uu == u * u,
            u == 0x100_0000 * w,
            w >= 1,
    ;
    let s = size(n);
    assert(0x100_0000 * s <= 0x100_0001 * (if i > u {
        i
    } else {
        u
    }) + 0x80_0000);
    let m = if i > u {
        i
    } else {
        u
    };
    assert(h * m <= (if ih > uu {
        ih
    } else {
        uu
    })) by (nonlinear_arith)
        requires
            m == i || m == u,
            ih == i * h,
            0 < h < u,
            uu == u * u,
    ;
    let qn = q * n;
    assert(size(qn) <= h * s) by (nonlinear_arith)
        requires
            qn == q * n,
            0 <= q <= h,
            s == size(n),
            size(n) == (if n < 0 {
                -n
            } else {
                n
            }),
            size(qn) == (if qn < 0 {
                -qn
            } else {
                qn
            }),
    ;
    assert(0x100_0000 * (h * s) <= 0x100_0001 * (h * m) + 0x80_0000 * h) by (nonlinear_arith)
        requires
            0x100_0000 * s <= 0x100_0001 * m + 0x80_0000,
            h > 0,
    ;
    let ut = u * t;
    assert(2 * size(ut) <= 3 * uu);
    assert(size(t) <= 2 * u) by (nonlinear_arith)
        requires
            2 * size(ut) <= 3 * uu,
            ut == u * t,
            uu == u * u,
            size(ut) == (if ut < 0 {
                -ut
            } else {
                ut
            }),
            size(t) == (if t < 0 {
                -t
            } else {
                t
            }),
            u > 0,
    ;
}

proof fn lemma_outer_errors(
    u: int,
    w: int,
    h: int,
    q: int,
    m: int,
    o: int,
    l: int,
    r: int,
)
    requires
        w >= 1,
        u == 0x100_0000 * w,
        0 < h < u,
        0 <= q <= u,
        0 < m <= u,
        0 <= l <= m,
        o >= 0,
        0 <= r <= u,
        size(m - (u - h)) <= w,
        size(l - (u - q)) <= w,
        close(o * m, h * u, m),
        close(u * r, o * l, u),
    ensures
        size(r * (u - h) - h * (u - q)) <= u * (16 * w),
{
    let uu = u * u;
    let uw = u * w;
    let (om, hu, ol) = (o * m, h * u, o * l);
    assert(uu == 0x100_0000 * uw && u <= uw) by (nonlinear_arith)
        requires
            uu == u * u,
            uw == u * w,
            u == 0x100_0000 * w,
            w >= 1,
    ;
    assert(0 < hu <= uu) by (nonlinear_arith)
        requires
            hu == h * u,
            0 < h < u,
            uu == u * u,
    ;
    let e1 = om - hu;
    assert(size(e1) <= 2 * uw);
    assert(0 <= ol <= om) by (nonlinear_arith)
        requires
            ol == o * l,
            om == o * m,
            0 <= l <= m,
            o >= 0,
    ;
    let e2 = u * r - ol;
    assert(size(e2) <= 3 * uw);
    // u r m = h u l + e1 l + e2 m
    let x = r * m - h * l;
    assert(u * x == e1 * l + e2 * m) by (nonlinear_arith)
        requires
            x == r * m - h * l,
            e1 == o * m - h * u,
            e2 == u * r - o * l,
    ;
    assert(size(e1 * l) <= u * (2 * uw) && size(e2 * m) <= u * (3 * uw)) by {
        lemma_scaled(e1, l, 2 * uw, u);
        lemma_scaled(e2, m, 3 * uw, u);
    }
    assert(size(x) <= 5 * uw) by (nonlinear_arith)
        requires
            size(u * x) <= u * (2 * uw) + u * (3 * uw),
            size(u * x) == (if u * x < 0 {
                -(u * x)
            } else {
                u * x
            }),
            size(x) == (if x < 0 {
                -x
            } else {
                x
            }),
            u > 0,
    ;
    let (e3, e4) = (m - (u - h), l - (u - q));
    lemma_scaled(e3, r, w, u);
    lemma_scaled(e4, h, w, u);
    assert(r * (u - h) - h * (u - q) == x - e3 * r + e4 * h) by (nonlinear_arith)
        requires
            x == r * m - h * l,
            e3 == m - (u - h),
            e4 == l - (u - q),
    ;
    assert(u * (16 * w) == 16 * uw) by (nonlinear_arith)
        requires
            uw == u * w,
    ;
}

/// A product of bounded numbers, the second not below zero.
proof fn lemma_scaled(x: int, y: int, a: int, b: int)
    requires
        size(x) <= a,
        0 <= y <= b,
    ensures
        size(x * y) <= b * a,
{
    assert(size(x * y) <= b * a) by (nonlinear_arith)
        requires
            0 <= y <= b,
            size(x) <= a,
            size(x) == (if x < 0 {
                -x
            } else {
                x
            }),
            size(x * y) == (if x * y < 0 {
                -(x * y)
            } else {
                x * y
            }),
    ;
}

/// Outside the hardness a dab fades on the straight line from the hardness to
/// nothing at its edge.
pub proof fn law_outside_fades_to_nothing(rr: Single, hardness: Single)
    requires
        proper(rr),
        hardness.finite(),
        0 < hardness.value() < rr.value(),
        hardness.value() < pow2(149),
    ensures
        ({
            let u = pow2(149) as int;
            let (h, q) = (hardness.value(), rr.value());
            let r = opa_at_spec(rr, hardness);
            &&& proper(r)
            &&& size(r.value() * (u - h) - h * (u - q)) <= u * pow2(129)
            &&& q == u ==> r.value() == 0
        }),
{
    let u = pow2(149) as int;
    let w = pow2(125) as int;
    let one = Single { bits: ONE };
    let m = one.minus_spec(hardness);
    let o = hardness.over_spec(m);
    let l = one.minus_spec(rr);
    let r = o.times_spec(l);
    lemma_one();
    lemma_pow2_pos(125);
    lemma_pow2_adds(24, 125);
    lemma_pow2_adds(4, 125);
    assert(pow2(24) == 0x100_0000 && pow2(4) == 16) by {
        lemma2_to64();
    }
    lemma_rest(hardness);
    lemma_rest(rr);
    lemma_above_zero(hardness);
    lemma_negate(hardness);
    lemma_negate(rr);
    lemma_plus_value(one, hardness.negate_spec());
    lemma_plus_value(one, rr.negate_spec());
    lemma_rounded_monotone(u - rr.value(), u - hardness.value());
    assert(0 <= l.value() <= m.value());
    assert(hardness.value() * u < pow2(180) * m.value()) by {
        let h = hardness.value();
        lemma_pow2_adds(180, 124);
        lemma_pow2_adds(149, 149);
        lemma_pow2_strictly_increases(298, 304);
        assert(h * u <= u * u) by (nonlinear_arith)
            requires
                0 < h < u,
        ;
        assert(pow2(180) * pow2(124) <= pow2(180) * m.value()) by (nonlinear_arith)
            requires
                pow2(124) <= m.value(),
                pow2(180) >= 0,
        ;
    }
    lemma_over_finite(hardness, m, 180);
    lemma_over_close(hardness, m);
    lemma_over_order(hardness, hardness, m);
    law_falloff_is_at_most_one(rr, hardness);
    lemma_times_non_negative(o, l);
    lemma_infinity_units();
    assert(!r.nan()) by {
        reveal(Single::times_spec);
    }
    lemma_times_close(o, l);
    lemma_outer_errors(
        u,
        w,
        hardness.value(),
        rr.value(),
        m.value(),
        o.value(),
        l.value(),
        r.value(),
    );
    if rr.value() == u {
        lemma_no_units(l);
        law_times_commutes(o, l);
        law_times_nothing(l, o);
        lemma_no_units(r);
    }
}

/// What is below one is below it by at least 2^-25.
proof fn lemma_above_zero(h: Single)
    requires
        h.finite(),
        0 < h.value() < pow2(149),
    ensures
        (Single { bits: ONE }).minus_spec(h).value() >= pow2(124),
{
    let below = Single { bits: 0x3f7f_ffff };
    let gap = Single { bits: 0x3300_0000 };
    let one = Single { bits: ONE };
    lemma_one();
    lemma_known(0x3f7f_ffff, 0xff_ffff, 125);
    lemma_known(0x3300_0000, 0x80_0000, 101);
    lemma_pow2_adds(23, 101);
    lemma_pow2_adds(24, 125);
    lemma_pow2_unfold(125);
    lemma_pow2_pos(125);
    assert(pow2(24) == 0x100_0000 && pow2(23) == 0x80_0000) by {
        lemma2_to64();
    }
    if h.mag() > 0x3f7f_ffff {
        if h.mag() > ONE {
            lemma_magnitude_increases(ONE as nat, h.mag(), 24);
        }
    } else if h.mag() < 0x3f7f_ffff {
        lemma_magnitude_increases(h.mag(), 0x3f7f_ffff, 24);
    }
    lemma_negate(h);
    lemma_plus_at_least(one, h.negate_spec(), gap);
}

/// Full hardness makes a solid disk, and what is outside of a dab is not
/// covered.
pub proof fn law_solid_disk_and_outside(rr: Single, hardness: Single)
    requires
        !rr.nan(),
        !hardness.nan(),
        rr.value() >= 0,
    ensures
        rr.value() > pow2(149) ==> opa_at_spec(rr, hardness).value() == 0,
        rr.value() <= pow2(149) && hardness.value() >= pow2(149) ==> opa_at_spec(
            rr,
            hardness,
        ).value() == pow2(149),
{
    lemma_one();
}

/// An ellipse is as long as it is along its direction and `aspect` times
/// narrower across: a point in its direction is not stretched whatever the
/// aspect, and one at right angles is stretched by the aspect alone.
pub proof fn law_ellipse_is_stretched_across(cs: Single, sn: Single, aspect: Single)
    requires
        cs.finite(),
        sn.finite(),
        aspect.finite(),
        cs.times(cs).finite(),
        sn.times(sn).finite(),
        sn.times(cs).finite(),
        sn.times(sn).plus(cs.times(cs)).finite(),
        sn.times(sn).plus(cs.times(cs)).times(sn.times(sn).plus(cs.times(cs))).finite(),
    ensures
        ({
            let one = Single { bits: ONE };
            let e = Ellipse { aspect, cs, sn };
            let long = sn.times(sn).plus(cs.times(cs));
            let wide = cs.times(cs).plus(sn.times(sn)).times(aspect);
            &&& !e.squared(cs, sn).nan() && e.squared(cs, sn).value() == long.times(long).value()
            &&& wide.times(wide).finite() ==> !e.squared(sn.negate(), cs).nan() && e.squared(
                sn.negate(),
                cs,
            ).value() == wide.times(wide).value()
        }),
{
    let e = Ellipse { aspect, cs, sn };
    let zero = Single { bits: 0 };
    let long = sn.times(sn).plus(cs.times(cs));
    lemma_one();
    law_times_commutes(sn, cs);
    // In its direction.
    let d = sn.times(cs).minus(cs.times(sn));
    law_minus_itself(sn.times(cs));
    let across = d.times(aspect);
    law_times_nothing(d, aspect);
    law_times_nothing(across, across);
    lemma_no_units(across.times(across));
    lemma_plus_value(across.times(across), long.times(long));
    lemma_rounded_exact(long.times(long));
    // At right angles.
    let back = sn.negate();
    lemma_negate(sn);
    assert(cs.times(cs).minus(back.times(sn)) == cs.times(cs).plus(sn.times(sn))) by {
        reveal(Single::times_spec);
        assert(back.times(sn) == sn.times(sn).negate());
        assert(sn.times(sn).negate().negate() == sn.times(sn));
    }
    let wide = cs.times(cs).plus(sn.times(sn)).times(aspect);
    let along = cs.times(sn).plus(back.times(cs));
    assert(along.zero()) by {
        reveal(Single::times_spec);
        assert(back.times(cs) == sn.times(cs).negate());
        law_minus_itself(cs.times(sn));
    }
    law_times_nothing(along, along);
    lemma_no_units(along.times(along));
    if wide.times(wide).finite() {
        lemma_plus_value(wide.times(wide), along.times(along));
        lemma_rounded_exact(wide.times(wide));
    }
}

} // verus!
