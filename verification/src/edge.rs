//! How the edge of a dab is softened.
//!
//! Values are in units of 2^-149, so that one is 2^149.
use crate::dab::softened;
use crate::means::{
    close, lemma_over_close, lemma_over_finite, lemma_plus_close, lemma_rest, lemma_times_close,
    proper, size,
};
use crate::placing::product;
use crate::range::{
    lemma_known, lemma_negate, lemma_one, lemma_plus_near, lemma_plus_value, lemma_rounded_exact,
    lemma_rounded_monotone, lemma_times_near,
};
use crate::rounding::magnitude;
use crate::single::{Single, HALF, ONE};
use vstd::arithmetic::power2::*;
use vstd::prelude::*;

verus! {

/// Whether `w` is what `h` leaves of one, as near as it can be.
pub open spec fn rest_of(h: Single, w: Single) -> bool {
    w.finite() && close(w.value(), pow2(149) - h.value(), 1)
}

/// Whether a dab of the given radius and hardness fades over `fade` pixels.
pub open spec fn fades_over(radius: Single, hardness: Single, fade: Single) -> bool {
    exists|w: Single|
        {
            &&& #[trigger] rest_of(hardness, w)
            &&& w.value() > 0
            &&& close(radius.value() * w.value(), fade.value() * pow2(149), w.value())
        }
}

/// Whether `o` is the optical radius of a dab: its radius less half of what it
/// fades over.
pub open spec fn optical_radius(radius: Single, hardness: Single, o: Single) -> bool {
    exists|w: Single, a: Single, b: Single|
        {
            &&& #[trigger] rest_of(hardness, w)
            &&& product(w, radius, a)
            &&& #[trigger] product(a, Single { bits: HALF }, b)
            &&& o.finite() && close(o.value(), radius.value() - b.value(), 1)
        }
}

/// Whether a dab of hardness `h` that fades over `fade` pixels has the optical
/// radius `o`: `h` is as the radius of its solid part, `o - fade / 2`, to its
/// own, `o + fade / 2`.
pub open spec fn hardness_at(o: Single, fade: Single, h: Single) -> bool {
    exists|f: Single, n: Single, d: Single|
        {
            &&& #[trigger] product(fade, Single { bits: HALF }, f)
            &&& close(n.value(), o.value() - f.value(), 1)
            &&& close(d.value(), o.value() + f.value(), 1)
            &&& #[trigger] close(h.value() * d.value(), n.value() * pow2(149), d.value())
        }
}

/// A half.
proof fn lemma_half()
    ensures
        (Single { bits: HALF }).finite(),
        (Single { bits: HALF }).value() == pow2(148),
        2 * pow2(148) == pow2(149),
{
    lemma_known(HALF, 0x80_0000, 125);
    lemma_pow2_adds(23, 125);
    lemma_pow2_unfold(149);
    assert(pow2(23) == 0x80_0000) by {
        lemma2_to64();
    }
}

/// Half of a number.
proof fn lemma_halved(x: Single)
    requires
        x.finite(),
        0 <= x.value() <= 1001 * pow2(149),
    ensures
        ({
            let y = x.times(Single { bits: HALF });
            &&& product(x, Single { bits: HALF }, y)
            &&& y.value() >= 0
            &&& x.value() - pow2(136) <= 2 * y.value() <= x.value() + pow2(136)
        }),
{
    let u = pow2(149) as int;
    let half = Single { bits: HALF };
    let e = pow2(136) as int;
    lemma_half();
    lemma_one();
    lemma_pow2_adds(11, 149);
    assert(pow2(11) == 2048) by {
        lemma2_to64();
    }
    let (xv, hv) = (x.value(), half.value());
    assert(xv * hv < pow2(160) * pow2(149)) by (nonlinear_arith)
        requires
            0 <= xv <= 1001 * u,
            2 * hv == u,
            pow2(160) == 2048 * u,
            pow2(149) == u,
            u > 0,
    ;
    lemma_times_near(x, half, 160);
    lemma_times_close(x, half);
    let y = x.times(half).value();
    assert(xv - e <= 2 * y <= xv + e) by (nonlinear_arith)
        requires
            2 * (y * u) <= 2 * (xv * hv) + u * e,
            2 * (xv * hv) <= 2 * (y * u) + u * e,
            2 * hv == u,
            u > 0,
    ;
}

/// The optical radius of a dab.
proof fn lemma_optical(radius: Single, hardness: Single)
    requires
        radius.finite(),
        8 * radius.value() >= pow2(149),
        radius.value() <= 1000 * pow2(149),
        proper(hardness),
    ensures
        ({
            let one = Single { bits: ONE };
            let w = one.minus(hardness);
            let o = radius.minus(w.times(radius).times(Single { bits: HALF }));
            &&& rest_of(hardness, w)
            &&& product(radius, w, radius.times(w))
            &&& optical_radius(radius, hardness, o)
            &&& 2 * o.value() >= radius.value() - 3 * pow2(136)
            &&& o.value() <= 1001 * pow2(149)
            &&& pow2(149) == 8192 * pow2(136)
        }),
{
    let u = pow2(149) as int;
    let e = pow2(136) as int;
    let one = Single { bits: ONE };
    let w = one.minus(hardness);
    let a = w.times(radius);
    lemma_one();
    lemma_rest(hardness);
    lemma_negate(hardness);
    lemma_plus_close(one, hardness.negate());
    lemma_pow2_adds(13, 136);
    lemma_pow2_adds(11, 149);
    lemma_pow2_pos(136);
    assert(pow2(13) == 8192 && pow2(11) == 2048) by {
        lemma2_to64();
    }
    let (wv, rv, av) = (w.value(), radius.value(), a.value());
    assert(0 <= wv * rv <= u * rv && u * rv < pow2(160) * pow2(149)) by (nonlinear_arith)
        requires
            0 <= wv <= u,
            0 <= rv <= 1000 * u,
            pow2(160) == 2048 * u,
            pow2(149) == u,
            u > 0,
    ;
    assert(rv * wv == wv * rv) by (nonlinear_arith);
    lemma_times_near(w, radius, 160);
    lemma_times_near(radius, w, 160);
    lemma_times_close(w, radius);
    lemma_times_close(radius, w);
    assert(2 * av <= 2 * rv + e) by (nonlinear_arith)
        requires
            2 * (av * u) <= 2 * (wv * rv) + u * e,
            wv * rv <= u * rv,
            u > 0,
    ;
    lemma_halved(a);
    let b = a.times(Single { bits: HALF });
    lemma_negate(b);
    lemma_plus_near(radius, b.negate(), 160);
    lemma_plus_close(radius, b.negate());
    assert(rest_of(hardness, w));
    assert(product(w, radius, a) && product(a, Single { bits: HALF }, b));
    let o = radius.minus(b);
    assert(o.finite() && close(o.value(), rv - b.value(), 1));
    assert(optical_radius(radius, hardness, radius.minus(b)));
}

/// The softened hardness and what it leaves of one.
proof fn lemma_soft(o: Single, fade: Single)
    requires
        o.finite(),
        32 * o.value() >= pow2(149),
        o.value() <= 1001 * pow2(149),
        fade.finite(),
        0 <= fade.value() <= 1000 * pow2(149),
    ensures
        ({
            let one = Single { bits: ONE };
            let f = fade.times(Single { bits: HALF });
            let soft = o.minus(f).over(o.plus(f));
            let w = one.minus(soft);
            &&& soft.finite()
            &&& hardness_at(o, fade, soft)
            &&& rest_of(soft, w)
            &&& soft.lt(one) ==> w.value() > 0
        }),
{
    let u = pow2(149) as int;
    let e = pow2(136) as int;
    let one = Single { bits: ONE };
    let f = fade.times(Single { bits: HALF });
    lemma_one();
    lemma_halved(fade);
    lemma_negate(f);
    lemma_pow2_adds(13, 136);
    lemma_pow2_adds(12, 149);
    lemma_pow2_unfold(137);
    lemma_pow2_pos(136);
    assert(pow2(13) == 8192 && pow2(12) == 4096) by {
        lemma2_to64();
    }
    let n = o.minus(f);
    let d = o.plus(f);
    lemma_plus_near(o, f.negate(), 161);
    lemma_plus_close(o, f.negate());
    lemma_plus_near(o, f, 161);
    lemma_plus_close(o, f);
    let (nv, dv) = (n.value(), d.value());
    assert(dv > 0 && -(2 * dv) <= nv <= 2 * dv);
    lemma_pow2_unfold(150);
    lemma_pow2_unfold(151);
    lemma_pow2_unfold(152);
    assert(size(nv) * u < pow2(151) * dv) by (nonlinear_arith)
        requires
            0 <= size(nv) <= 2 * dv,
            pow2(151) == 4 * u,
            dv > 0,
            u > 0,
    ;
    lemma_over_finite(n, d, 151);
    lemma_over_close(n, d);
    let soft = n.over(d);
    let sv = soft.value();
    assert(product(fade, Single { bits: HALF }, f));
    assert(close(sv * dv, nv * pow2(149), dv));
    assert(hardness_at(o, fade, soft));
    lemma_soft_bounds(sv, nv, dv, u);
    lemma_negate(soft);
    lemma_plus_near(one, soft.negate(), 152);
    lemma_plus_close(one, soft.negate());
    lemma_plus_value(one, soft.negate());
    if sv < u {
        let least = Single { bits: 1 };
        lemma_least();
        lemma_rounded_exact(least);
        lemma_rounded_monotone(1, u - sv);
    }
}

/// A quotient of a number by one that is at least half of it.
proof fn lemma_soft_bounds(s: int, n: int, d: int, u: int)
    requires
        close(s * d, n * u, d),
        d > 0,
        u > 0,
        -(2 * d) <= n <= 2 * d,
    ensures
        -(6 * u) <= s <= 6 * u,
{
    let (nu, sd) = (n * u, s * d);
    assert(-(2 * (d * u)) <= nu <= 2 * (d * u)) by (nonlinear_arith)
        requires
            nu == n * u,
            -(2 * d) <= n <= 2 * d,
            u > 0,
    ;
    assert(d <= d * u) by (nonlinear_arith)
        requires
            d > 0,
            u > 0,
    ;
    assert(-(6 * (d * u)) <= sd <= 6 * (d * u));
    assert(-(6 * u) <= s <= 6 * u) by (nonlinear_arith)
        requires
            -(6 * (d * u)) <= s * d <= 6 * (d * u),
            d > 0,
    ;
}

/// The least number above zero.
pub proof fn lemma_least()
    ensures
        (Single { bits: 1 }).finite(),
        (Single { bits: 1 }).value() == 1,
{
    lemma_one();
    assert(pow2(23) == 0x80_0000) by {
        lemma2_to64();
    }
    assert(magnitude(1, 24) == 1);
}

/// The edge of a dab fades over as many pixels as the setting asks for, at the
/// least: a dab that fades over more stays as it is, and a sharper one is given
/// an edge of just so many, about the same optical radius.
pub proof fn law_edges_fade_over_their_pixels(radius: Single, hardness: Single, fade: Single)
    requires
        radius.finite(),
        8 * radius.value() >= pow2(149),
        radius.value() <= 1000 * pow2(149),
        proper(hardness),
        fade.finite(),
        0 <= fade.value() <= 1000 * pow2(149),
        softened(radius, hardness, fade).0.finite(),
    ensures
        ({
            let (r, h) = softened(radius, hardness, fade);
            exists|w: Single, edge: Single, o: Single|
                {
                    &&& rest_of(hardness, w)
                    &&& #[trigger] product(radius, w, edge)
                    &&& #[trigger] optical_radius(radius, hardness, o)
                    &&& edge.value() >= fade.value() ==> r == radius && h == hardness
                    &&& edge.value() < fade.value() ==> r == radius && h == hardness || fades_over(
                        r,
                        h,
                        fade,
                    ) && hardness_at(o, fade, h)
                }
        }),
{
    let one = Single { bits: ONE };
    let half = Single { bits: HALF };
    let w = one.minus(hardness);
    let edge = radius.times(w);
    let o = radius.minus(w.times(radius).times(half));
    lemma_one();
    lemma_pow2_pos(136);
    lemma_optical(radius, hardness);
    assert(product(radius, w, edge) && optical_radius(radius, hardness, o));
    if edge.value() < fade.value() {
        lemma_soft(o, fade);
        let soft = o.minus(fade.times(half)).over(o.plus(fade.times(half)));
        if soft.lt(one) {
            let rest = one.minus(soft);
            lemma_over_close(fade, rest);
            assert(rest_of(soft, rest));
        }
    }
}

} // verus!
