//! How far counting by rounded numbers can be off: lengths, parts of lengths,
//! and counts of dabs on them.
use crate::dab::law_smaller_part_stays_behind;
use crate::range::{
    lemma_finite_or_infinite, lemma_known, lemma_nearest_at_most, lemma_nearest_relative,
    lemma_negate, lemma_no_units, lemma_one, lemma_over_near, lemma_over_order, lemma_plus_near,
    lemma_rest_in_unit, lemma_times_near_signed, lemma_times_non_negative,
};
use crate::single::{law_plus_nothing, law_times_commutes, law_times_one, nearest, Single, ONE};
use vstd::arithmetic::power2::*;
use vstd::prelude::*;

verus! {

/// The way that is left in one coordinate after a part of it.
pub proof fn lemma_coordinate(x: Single, g: Single, f: Single, k: nat)
    requires
        x.finite(),
        g.finite(),
        f.finite(),
        149 <= k <= 200,
        -pow2(k) <= x.value() <= pow2(k),
        -pow2(k) <= g.value() <= pow2(k),
        0 <= f.value() <= 2 * pow2(149),
        ({
            let to = x.plus_spec(f.times_spec(g.minus_spec(x)));
            -pow2(k) <= to.value() <= pow2(k)
        }),
    ensures
        ({
            let e = g.minus_spec(x);
            let to = x.plus_spec(f.times_spec(e));
            let rest = g.minus_spec(to);
            let u = pow2(149);
            &&& e.finite()
            &&& rest.finite()
            &&& u * rest.value() - (u - f.value()) * e.value() <= u * pow2((k - 20) as nat)
            &&& (u - f.value()) * e.value() - u * rest.value() <= u * pow2((k - 20) as nat)
        }),
{
    let u = pow2(149) as int;
    let w = pow2((k - 23) as nat) as int;
    let e = g.minus_spec(x);
    let s = f.times_spec(e);
    let to = x.plus_spec(s);
    let rest = g.minus_spec(to);
    lemma_one();
    lemma_pow2_unfold((k - 22) as nat);
    lemma_pow2_unfold((k - 21) as nat);
    lemma_pow2_unfold((k - 20) as nat);
    lemma_pow2_unfold(k + 1);
    lemma_pow2_unfold(k + 2);
    lemma_pow2_unfold(k + 3);
    lemma_pow2_unfold(k + 4);
    lemma_pow2_pos(k);
    lemma_pow2_pos((k - 23) as nat);
    lemma_pow2_adds(23, (k - 23) as nat);
    assert(pow2(23) == 0x80_0000) by {
        lemma2_to64();
    }
    let p = pow2(k) as int;
    lemma_negate(x);
    lemma_plus_near(g, x.negate_spec(), k + 2);
    assert(-3 * p < e.value() < 3 * p);
    assert(-(8 * p * u) < f.value() * e.value() < 8 * p * u) by (nonlinear_arith)
        requires
            0 <= f.value() <= 2 * u,
            -3 * p < e.value() < 3 * p,
            p > 0,
            u > 0,
    ;
    assert(8 * p * u == pow2(k + 3) * pow2(149));
    lemma_times_near_signed(f, e, k + 3);
    let fe = f.value() * e.value();
    assert(-9 * p < s.value() < 9 * p) by (nonlinear_arith)
        requires
            2 * (s.value() * u) <= 2 * fe + u * (4 * w),
            2 * fe <= 2 * (s.value() * u) + u * (4 * w),
            -(8 * p * u) < fe < 8 * p * u,
            p == 0x80_0000 * w,
            w > 0,
            u > 0,
    ;
    lemma_plus_near(x, s, k + 4);
    lemma_negate(to);
    lemma_plus_near(g, to.negate_spec(), k + 2);
    // Add up.
    let d = rest.value() - (e.value() - s.value());
    assert(-6 * w <= d <= 6 * w);
    assert(u * rest.value() == u * e.value() - s.value() * u + u * d) by (nonlinear_arith)
        requires
            d == rest.value() - (e.value() - s.value()),
    ;
    assert((u - f.value()) * e.value() == u * e.value() - fe) by (nonlinear_arith)
        requires
            fe == f.value() * e.value(),
    ;
    assert(-6 * (u * w) <= u * d <= 6 * (u * w)) by (nonlinear_arith)
        requires
            -6 * w <= d <= 6 * w,
            u > 0,
    ;
    assert(u * (4 * w) == 4 * (u * w) && u * (8 * w) == 8 * (u * w)) by (nonlinear_arith);
}

/// A length in radii, times a density, is what it should be but for a part of
/// it and a few units.
pub proof fn lemma_counted(h: Single, r: Single, k: Single)
    requires
        h.finite(),
        r.finite(),
        k.finite(),
        h.value() >= 0,
        r.value() > 0,
        k.value() >= 0,
        h.over_spec(r).finite(),
        h.over_spec(r).times_spec(k).finite(),
    ensures
        ({
            let u = pow2(149) as int;
            let a = h.over_spec(r).times_spec(k).value();
            let (hk, rk) = (h.value() * k.value(), r.value() * k.value());
            let ar = a * r.value();
            &&& a >= 0
            &&& 0x40_0000 * (u * ar) <= 0x40_0000 * (u * hk) + u * hk + 0x40_0000 * (rk + u
                * r.value())
            &&& 0x40_0000 * (u * hk) <= 0x40_0000 * (u * ar) + u * hk + 0x40_0000 * (rk + u
                * r.value())
        }),
{
    let u = pow2(149) as int;
    let q = h.over_spec(r);
    let c = q.times_spec(k);
    let (hv, rv, kv) = (h.value(), r.value(), k.value());
    lemma_one();
    lemma_no_units(r);
    lemma_over_order(h, h, r);
    let qv = q.value();
    assert(h.units() == hv && r.units() == rv && k.units() == kv && q.units() == qv);
    assert(nearest(h.units() * pow2(149), r.units()) == q.mag()) by {
        reveal(Single::over_spec);
    }
    lemma_nearest_relative(h.units() * pow2(149), r.units());
    lemma_times_non_negative(q, k);
    let a = c.value();
    assert(a == c.units());
    assert(nearest(q.units() * k.units(), pow2(149)) == c.mag()) by {
        reveal(Single::times_spec);
    }
    lemma_nearest_relative(q.units() * k.units(), pow2(149));
    lemma_counted_sums(u, hv, rv, kv, qv, a);
}

/// The two roundings of a count, added up.
pub proof fn lemma_counted_sums(u: int, h: int, r: int, k: int, q: int, a: int)
    requires
        u > 0,
        h >= 0,
        r > 0,
        k >= 0,
        q >= 0,
        a >= 0,
        0x100_0000 * (q * r) <= 0x100_0000 * (h * u) + h * u + 0x80_0000 * r,
        0x100_0000 * (h * u) <= 0x100_0000 * (q * r) + h * u + 0x80_0000 * r,
        0x100_0000 * (a * u) <= 0x100_0000 * (q * k) + q * k + 0x80_0000 * u,
        0x100_0000 * (q * k) <= 0x100_0000 * (a * u) + q * k + 0x80_0000 * u,
    ensures
        0x40_0000 * (u * (a * r)) <= 0x40_0000 * (u * (h * k)) + u * (h * k) + 0x40_0000 * (r * k + u
            * r),
        0x40_0000 * (u * (h * k)) <= 0x40_0000 * (u * (a * r)) + u * (h * k) + 0x40_0000 * (r * k + u
            * r),
{
    let x = q * k * r;
    let y = u * (h * k);
    let z = u * (a * r);
    let rk = r * k;
    let ur = u * r;
    assert(0x100_0000 * x <= 0x100_0000 * y + y + 0x80_0000 * rk) by (nonlinear_arith)
        requires
            0x100_0000 * (q * r) <= 0x100_0000 * (h * u) + h * u + 0x80_0000 * r,
            x == q * k * r,
            y == u * (h * k),
            rk == r * k,
            k >= 0,
    ;
    assert(0x100_0000 * y <= 0x100_0000 * x + y + 0x80_0000 * rk) by (nonlinear_arith)
        requires
            0x100_0000 * (h * u) <= 0x100_0000 * (q * r) + h * u + 0x80_0000 * r,
            x == q * k * r,
            y == u * (h * k),
            rk == r * k,
            k >= 0,
    ;
    assert(0x100_0000 * z <= 0x100_0000 * x + x + 0x80_0000 * ur) by (nonlinear_arith)
        requires
            0x100_0000 * (a * u) <= 0x100_0000 * (q * k) + q * k + 0x80_0000 * u,
            x == q * k * r,
            z == u * (a * r),
            ur == u * r,
            r > 0,
    ;
    assert(0x100_0000 * x <= 0x100_0000 * z + x + 0x80_0000 * ur) by (nonlinear_arith)
        requires
            0x100_0000 * (q * k) <= 0x100_0000 * (a * u) + q * k + 0x80_0000 * u,
            x == q * k * r,
            z == u * (a * r),
            ur == u * r,
            r > 0,
    ;
    assert(y >= 0 && rk >= 0 && ur >= 0) by (nonlinear_arith)
        requires
            y == u * (h * k),
            rk == r * k,
            ur == u * r,
            u > 0,
            h >= 0,
            k >= 0,
            r > 0,
    ;
}

/// How far counting anew after a part `f` of the way is from counting down.
///
/// `h` and `a` are the way and the dabs that were left, `h2` and `a2` those
/// that are left; `p` is how far the place can be off, and `s` what that makes
/// in dabs.
pub proof fn lemma_count_left(
    u: int,
    r: int,
    k: int,
    f: int,
    h: int,
    a: int,
    h2: int,
    a2: int,
    p: int,
    s: int,
)
    requires
        u > 0,
        r > 0,
        k >= 0,
        0 <= f <= 2 * u,
        h >= 0,
        h2 >= 0,
        0 <= a <= 0x2_0000 * s,
        0 <= a2 <= 0x2_0000 * s,
        p >= 1,
        s >= 0x400_0000_0000,
        8 * (k * p) <= s * r,
        k <= 0x1_0000 * u,
        0x40_0000 * (u * (a * r)) <= 0x40_0000 * (u * (h * k)) + u * (h * k) + 0x40_0000 * (r * k + u
            * r),
        0x40_0000 * (u * (h * k)) <= 0x40_0000 * (u * (a * r)) + u * (h * k) + 0x40_0000 * (r * k + u
            * r),
        0x40_0000 * (u * (a2 * r)) <= 0x40_0000 * (u * (h2 * k)) + u * (h2 * k) + 0x40_0000 * (r * k
            + u * r),
        0x40_0000 * (u * (h2 * k)) <= 0x40_0000 * (u * (a2 * r)) + u * (h2 * k) + 0x40_0000 * (r * k
            + u * r),
        0x80_0000 * (u * h2 - (u - f) * h) <= 0x80_0000 * (2 * (u * p)) + u * (h + h2) + 0x80_0000
            * (2 * u),
        0x80_0000 * ((u - f) * h - u * h2) <= 0x80_0000 * (2 * (u * p)) + u * (h + h2) + 0x80_0000
            * (2 * u),
    ensures
        u * a2 - (u - f) * a <= u * s,
        (u - f) * a - u * a2 <= u * s,
{
    let d = u * a2 - (u - f) * a;
    let ur = u * r;
    let rk = r * k;
    let g = u - f;
    // In terms of u r.
    let x = u * (h * k);
    let x2 = u * (h2 * k);
    let e = u * (a * r) - x;
    let e2 = u * (a2 * r) - x2;
    assert(rk <= 0x1_0000 * ur) by (nonlinear_arith)
        requires
            rk == r * k,
            ur == u * r,
            k <= 0x1_0000 * u,
            r > 0,
    ;
    assert(ur > 0) by (nonlinear_arith)
        requires
            ur == u * r,
            u > 0,
            r > 0,
    ;
    let us = ur * s;
    assert(u * (a * r) <= 0x2_0000 * us && u * (a2 * r) <= 0x2_0000 * us) by (nonlinear_arith)
        requires
            a <= 0x2_0000 * s,
            a2 <= 0x2_0000 * s,
            us == ur * s,
            ur == u * r,
            u > 0,
            r > 0,
    ;
    assert(0x400_0000_0000 * ur <= us) by (nonlinear_arith)
        requires
            us == ur * s,
            s >= 0x400_0000_0000,
            ur > 0,
    ;
    assert(x >= 0 && x2 >= 0) by (nonlinear_arith)
        requires
            x == u * (h * k),
            x2 == u * (h2 * k),
            u > 0,
            h >= 0,
            h2 >= 0,
            k >= 0,
    ;
    assert(x <= 0x4_0000 * us && x2 <= 0x4_0000 * us);
    let most = x + 0x40_0000 * (rk + ur);
    let most2 = x2 + 0x40_0000 * (rk + ur);
    assert(-most <= 0x40_0000 * e <= most && -most2 <= 0x40_0000 * e2 <= most2);
    // The way.
    let y = u * h2 - g * h;
    let yk = y * k;
    let up = u * p;
    assert(0x80_0000 * yk <= 0x100_0000 * (up * k) + x + x2 + 0x100_0000 * (u * k)) by (nonlinear_arith)
        requires
            0x80_0000 * y <= 0x80_0000 * (2 * up) + u * (h + h2) + 0x80_0000 * (2 * u),
            yk == y * k,
            x == u * (h * k),
            x2 == u * (h2 * k),
            k >= 0,
    ;
    assert(-(0x80_0000 * yk) <= 0x100_0000 * (up * k) + x + x2 + 0x100_0000 * (u * k))
        by (nonlinear_arith)
        requires
            0x80_0000 * (-y) <= 0x80_0000 * (2 * up) + u * (h + h2) + 0x80_0000 * (2 * u),
            yk == y * k,
            x == u * (h * k),
            x2 == u * (h2 * k),
            k >= 0,
    ;
    assert(8 * (up * k) <= us) by (nonlinear_arith)
        requires
            8 * (k * p) <= s * r,
            up == u * p,
            us == ur * s,
            ur == u * r,
            u > 0,
    ;
    assert(u * k <= up * k) by (nonlinear_arith)
        requires
            up == u * p,
            p >= 1,
            u > 0,
            k >= 0,
    ;
    // Together.
    assert(r * d == e2 * 1 - (u * (a * r) - x) + f * (a * r) - f * (h * k) + yk) by {
        lemma_left_identity(u, r, k, f, h, a, h2, a2);
    }
    let v = a * r - h * k;
    assert(u * v == e) by (nonlinear_arith)
        requires
            v == a * r - h * k,
            e == u * (a * r) - u * (h * k),
    ;
    assert(f * v == f * (a * r) - f * (h * k)) by (nonlinear_arith)
        requires
            v == a * r - h * k,
    ;
    let gv = g * v;
    assert(gv == e - f * v) by (nonlinear_arith)
        requires
            gv == g * v,
            g == u - f,
            u * v == e,
    ;
    assert(-most <= 0x40_0000 * gv <= most) by (nonlinear_arith)
        requires
            gv == g * v,
            u * v == e,
            -u <= g <= u,
            -most <= 0x40_0000 * e <= most,
            u > 0,
    ;
    assert(r * d == e2 - gv + yk);
    assert(0x80_0000 * (r * d) <= 0x80_0000 * us && -(0x80_0000 * us) <= 0x80_0000 * (r * d));
    assert(d <= u * s && -d <= u * s) by (nonlinear_arith)
        requires
            r * d <= us,
            -us <= r * d,
            us == ur * s,
            ur == u * r,
            r > 0,
    ;
}

/// What the difference is made of.
pub proof fn lemma_left_identity(u: int, r: int, k: int, f: int, h: int, a: int, h2: int, a2: int)
    ensures
        r * (u * a2 - (u - f) * a) == (u * (a2 * r) - u * (h2 * k)) - (u * (a * r) - u * (h * k)) + f
            * (a * r) - f * (h * k) + (u * h2 - (u - f) * h) * k,
{
    assert(r * (u * a2 - (u - f) * a) == u * (a2 * r) - u * (a * r) + f * (a * r))
        by (nonlinear_arith);
    assert((u * h2 - (u - f) * h) * k == u * (h2 * k) - u * (h * k) + f * (h * k))
        by (nonlinear_arith);
}

/// A part of a number is at most one.
pub proof fn lemma_part_at_most_one(d: Single, a: Single)
    requires
        d.finite(),
        a.finite(),
        0 <= d.value() <= a.value(),
        a.value() > 0,
    ensures
        d.over_spec(a).value() <= pow2(149),
{
    lemma_one();
    lemma_no_units(a);
    lemma_over_order(d, d, a);
    let r = d.over_spec(a);
    assert(d.units() * pow2(149) <= pow2(149) * a.units()) by (nonlinear_arith)
        requires
            d.units() <= a.units(),
            pow2(149) > 0,
    ;
    reveal(Single::over_spec);
    lemma_nearest_at_most(d.units() * pow2(149), a.units(), ONE as nat);
}

/// The dab that is due, and the part of the way to it.
pub proof fn lemma_part_of_dab(moved: Single, ddab: Single, todo: Single)
    requires
        moved.finite(),
        0 <= moved.value() <= pow2(149),
        todo.finite(),
        0 < todo.value(),
        ddab == (if (Single { bits: 0 }).lt(moved) {
            (Single { bits: ONE }).minus(moved)
        } else {
            Single { bits: ONE }
        }),
        ddab.value() <= todo.value(),
    ensures
        ({
            let u = pow2(149) as int;
            let f = ddab.over(todo);
            let e = f.value() * todo.value() - ddab.value() * u;
            &&& f.finite()
            &&& 0 <= f.value() <= u
            &&& -pow2(125) <= ddab.value() - (u - moved.value()) <= pow2(125)
            &&& -(todo.value() * pow2(125)) <= e <= todo.value() * pow2(125)
        }),
{
    let u = pow2(149) as int;
    let one = Single { bits: ONE };
    let a = todo.value();
    lemma_one();
    lemma_pow2_unfold(126);
    lemma_pow2_unfold(150);
    lemma_pow2_pos(125);
    lemma_negate(moved);
    lemma_plus_near(one, moved.negate(), 150);
    lemma_rest_in_unit(moved);
    let dd = ddab.value();
    assert(ddab.finite() && dd >= 0);
    assert(dd * pow2(149) < pow2(150) * a) by (nonlinear_arith)
        requires
            0 <= dd <= a,
            0 < a,
            pow2(150) == 2 * pow2(149),
            pow2(149) > 0,
    ;
    lemma_over_near(ddab, todo, 150);
    lemma_part_at_most_one(ddab, todo);
    let fv = ddab.over(todo).value();
    let e = fv * a - dd * u;
    assert(-(a * pow2(125)) <= e <= a * pow2(125)) by (nonlinear_arith)
        requires
            2 * (fv * a) <= 2 * (dd * pow2(149)) + a * (2 * pow2(125)),
            2 * (dd * pow2(149)) <= 2 * (fv * a) + a * (2 * pow2(125)),
            e == fv * a - dd * u,
            u == pow2(149),
    ;
}

/// From the part of the way to the dab.
pub proof fn lemma_dab_taken(u: int, w: int, f: int, dd: int, a: int, a2: int, s: int)
    requires
        w > 0,
        u == 0x100_0000 * w,
        0 <= a <= 0x2_0000 * s,
        s >= 32 * w,
        u * a2 - (u - f) * a <= u * s,
        (u - f) * a - u * a2 <= u * s,
        -(a * w) <= f * a - dd * u <= a * w,
    ensures
        -(2 * s - w) <= a2 - (a - dd) <= 2 * s - w,
{
    let e = f * a - dd * u;
    let z = a2 - (a - dd);
    assert(u * z == (u * a2 - (u - f) * a) - e) by (nonlinear_arith)
        requires
            z == a2 - (a - dd),
            e == f * a - dd * u,
    ;
    assert(64 * (a * w) <= u * s) by (nonlinear_arith)
        requires
            0 <= a <= 0x2_0000 * s,
            u == 0x100_0000 * w,
            w > 0,
            s >= 0,
    ;
    assert(-(65 * s) <= 64 * z <= 65 * s) by (nonlinear_arith)
        requires
            -(65 * (u * s)) <= 64 * (u * z) <= 65 * (u * s),
            u > 0,
    ;
}

/// A step to a place on the way to the goal stays in the range.
pub proof fn lemma_stays_covered(x: Single, g: Single, f: Single, k: nat)
    requires
        x.finite(),
        g.finite(),
        f.finite(),
        149 <= k <= 200,
        -pow2(k) <= x.value() <= pow2(k),
        -pow2(k) <= 2 * g.value() <= pow2(k),
        0 <= f.value() <= pow2(149),
    ensures
        ({
            let to = x.plus(f.times(g.minus(x)));
            to.finite() && -pow2(k) <= to.value() <= pow2(k)
        }),
{
    let one = Single { bits: ONE };
    let e = g.minus(x);
    let to = x.plus(f.times(e));
    let end = x.plus(e.times(one));
    lemma_one();
    lemma_pow2_pos(k);
    lemma_pow2_unfold(k + 1);
    lemma_pow2_unfold(k + 2);
    lemma_negate(x);
    lemma_plus_near(g, x.negate(), k + 2);
    lemma_pow2_adds(4, (k - 22) as nat);
    lemma_pow2_adds(18, (k - 18) as nat);
    lemma_pow2_pos((k - 22) as nat);
    assert(pow2(4) == 16 && pow2(18) == 0x4_0000) by {
        lemma2_to64();
    }
    law_times_one(e);
    lemma_plus_near(x, e, k + 2);
    law_smaller_part_stays_behind(x, g, f, one);
    law_times_commutes(f, e);
    assert(-pow2(k) <= end.value() <= pow2(k));
    if !to.finite() {
        lemma_finite_or_infinite(to);
        lemma_pow2_strictly_increases(k, 277);
    }
}

/// A quotient that is below a power of two is rounded to no more than that.
pub proof fn lemma_nearest_below(h: Single, r: Single)
    requires
        h.finite(),
        r.finite(),
        h.value() >= 0,
        r.value() > 0,
        h.value() * pow2(149) < pow2(214) * r.value(),
    ensures
        h.over(r).value() <= pow2(214),
{
    let top = Single { bits: 0x6000_0000 };
    lemma_known(0x6000_0000, 0x80_0000, 191);
    lemma_pow2_adds(23, 191);
    assert(pow2(23) == 0x80_0000) by {
        lemma2_to64();
    }
    lemma_one();
    lemma_no_units(r);
    lemma_over_order(h, h, r);
    assert(h.units() == h.value() && r.units() == r.value());
    reveal(Single::over_spec);
    lemma_nearest_at_most(h.units() * pow2(149), r.units(), 0x6000_0000);
}

/// Adding nothing changes no number without a sign.
pub proof fn lemma_plus_zero(x: Single, z: Single)
    requires
        x.finite(),
        !x.negative(),
        z.zero(),
    ensures
        x.plus(z) == x,
{
    law_plus_nothing(x);
    lemma_no_units(z);
    lemma_no_units(Single { bits: 0 });
    reveal(Single::plus_spec);
}

/// The dabs that are left on a part of a way are at most twice those on the
/// way; names are as above.
pub proof fn lemma_left_at_most(
    u: int,
    r: int,
    k: int,
    f: int,
    h: int,
    a: int,
    h2: int,
    a2: int,
    p: int,
    s: int,
)
    requires
        u > 0,
        r > 0,
        k >= 0,
        0 <= f <= u,
        h >= 0,
        h2 >= 0,
        0 <= a <= 0x1_0000 * s,
        p >= 1,
        s >= 0x400_0000_0000,
        8 * (k * p) <= s * r,
        k <= 0x1_0000 * u,
        0x40_0000 * (u * (h * k)) <= 0x40_0000 * (u * (a * r)) + u * (h * k) + 0x40_0000 * (r * k + u
            * r),
        0x40_0000 * (u * (a2 * r)) <= 0x40_0000 * (u * (h2 * k)) + u * (h2 * k) + 0x40_0000 * (r * k
            + u * r),
        0x80_0000 * (u * h2 - (u - f) * h) <= 0x80_0000 * (2 * (u * p)) + u * (h + h2) + 0x80_0000
            * (2 * u),
    ensures
        a2 <= 0x2_0000 * s,
{
    let rk = r * k;
    assert((u - f) * h <= u * h) by (nonlinear_arith)
        requires
            f >= 0,
            h >= 0,
    ;
    assert(0x80_0000 * h2 <= 0x80_0000 * h + 0x100_0000 * p + h + h2 + 0x100_0000) by (nonlinear_arith)
        requires
            0x80_0000 * (u * h2 - u * h) <= 0x80_0000 * (2 * (u * p)) + u * (h + h2) + 0x80_0000 * (2
                * u),
            u > 0,
    ;
    assert(4 * h2 <= 5 * h + 20 * p);
    let (hk, hk2, ar, ar2, sr, pk) = (h * k, h2 * k, a * r, a2 * r, s * r, k * p);
    assert(4 * hk2 <= 5 * hk + 20 * pk) by (nonlinear_arith)
        requires
            4 * h2 <= 5 * h + 20 * p,
            hk == h * k,
            hk2 == h2 * k,
            pk == k * p,
            k >= 0,
    ;
    assert(rk <= 0x1_0000 * (u * r)) by (nonlinear_arith)
        requires
            rk == r * k,
            k <= 0x1_0000 * u,
            r > 0,
    ;
    assert(0x40_0000 * hk <= 0x40_0000 * ar + hk + 0x40_0000 * (0x1_0001 * r)) by (nonlinear_arith)
        requires
            0x40_0000 * (u * hk) <= 0x40_0000 * (u * ar) + u * hk + 0x40_0000 * (rk + u * r),
            rk <= 0x1_0000 * (u * r),
            u > 0,
    ;
    assert(0x40_0000 * ar2 <= 0x40_0000 * hk2 + hk2 + 0x40_0000 * (0x1_0001 * r))
        by (nonlinear_arith)
        requires
            0x40_0000 * (u * ar2) <= 0x40_0000 * (u * hk2) + u * hk2 + 0x40_0000 * (rk + u * r),
            rk <= 0x1_0000 * (u * r),
            u > 0,
    ;
    assert(ar <= 0x1_0000 * sr && 0x400_0000_0000 * r <= sr) by (nonlinear_arith)
        requires
            ar == a * r,
            sr == s * r,
            a <= 0x1_0000 * s,
            s >= 0x400_0000_0000,
            r > 0,
    ;
    assert(hk >= 0 && hk2 >= 0) by (nonlinear_arith)
        requires
            hk == h * k,
            hk2 == h2 * k,
            h >= 0,
            h2 >= 0,
            k >= 0,
    ;
    assert(ar2 <= 0x2_0000 * sr);
    assert(a2 <= 0x2_0000 * s) by (nonlinear_arith)
        requires
            a2 * r <= 0x2_0000 * (s * r),
            r > 0,
    ;
}

} // verus!
