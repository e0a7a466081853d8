//! How well colouring keeps luminance, in spite of all the rounding.
use crate::blend::{
    clipped, greatest, held_luminance, in_gamut, law_coloured_stays_in_range, least,
    lemma_cut_within, luminance, with_luminance, Source, LUMA_BLUE, LUMA_GREEN, LUMA_RED, SCALE,
};
use crate::range::{lemma_one, lemma_plus_value, lemma_rounded_monotone, rounded};
use crate::rounding::{code, lemma_code_error, lemma_code_monotone, lemma_code_scale, magnitude};
use crate::single::{lemma_magnitude_zero, lemma_nearest_exact, nearest, Single, INFINITY};
use vstd::arithmetic::div_mod::*;
use vstd::arithmetic::power2::*;
use vstd::prelude::*;

verus! {

/// The exact luminance of a colour, in parts of 2^27.
pub open spec fn weighed(r: int, g: int, b: int) -> int {
    28534688 * r + 95992520 * g + 9690520 * b
}

/// A value that is far from overflow.
spec fn small(v: int) -> bool {
    -(pow2(200) as int) <= v <= pow2(200)
}

/// What is far from overflow is not rounded to infinity.
proof fn lemma_far_from_overflow(n: nat, d: nat)
    requires
        d > 0,
        n <= pow2(200) * d,
    ensures
        nearest(n, d) == code(n, d, 24),
        nearest(n, d) < INFINITY,
{
    let top = (1 * pow2(200)) * d;
    lemma_nearest_exact(top, d, 1, 200);
    assert(n * d <= top * d) by (nonlinear_arith)
        requires
            n <= top,
            d >= 0,
    ;
    lemma_code_monotone(n, d, top, d, 24);
}

/// Rounding moves a value by no more than a part in 2^24, or half a unit.
proof fn lemma_rounded_error(v: int)
    requires
        small(v),
    ensures
        v >= 0 ==> -v - 0x80_0000 <= (rounded(v) - v) * 0x100_0000 <= v + 0x80_0000,
        v <= 0 ==> v - 0x80_0000 <= (rounded(v) - v) * 0x100_0000 <= -v + 0x80_0000,
{
    let m = (if v >= 0 {
        v
    } else {
        -v
    }) as nat;
    assert(pow2(23) == 0x80_0000) by {
        lemma2_to64();
    }
    lemma_code_error(m, 1, 24);
    lemma_far_from_overflow(m, 1);
    let y = magnitude(nearest(m, 1), 24);
    assert(y * 0x100_0000 <= m * 0x100_0000 + m + 0x80_0000 && m * 0x100_0000 <= y * 0x100_0000 + m
        + 0x80_0000) by (nonlinear_arith)
        requires
            2 * (y * 1) * 0x80_0000 <= 2 * m * 0x80_0000 + m + 1 * 0x80_0000,
            2 * m * 0x80_0000 <= 2 * (y * 1) * 0x80_0000 + m + 1 * 0x80_0000,
    ;
    lemma_rounded_monotone(0, 0);
}

/// An integer of up to 24 bits as a single.
proof fn lemma_of_value(n: int)
    requires
        -0x100_0000 < n < 0x100_0000,
    ensures
        Single::of(n).finite(),
        Single::of(n).negative() == (n < 0),
        Single::of(n).value() == n * pow2(149),
        Single::of(n).units() == (if n >= 0 {
            n
        } else {
            -n
        }) * pow2(149),
{
    let m = (if n >= 0 {
        n
    } else {
        -n
    }) as nat;
    reveal(Single::of);
    assert((m * pow2(149)) * 1 == m * pow2(149));
    lemma_nearest_exact(m * pow2(149), 1, m, 149);
    assert(-n * pow2(149) == -(n * pow2(149))) by (nonlinear_arith);
}

/// An integer times a positive number is the exact product, rounded.
proof fn lemma_weighed(n: int, k: Single)
    requires
        -0x2_0000 <= n <= 0x2_0000,
        k.finite(),
        !k.negative(),
        0 < k.units() <= pow2(170),
    ensures
        Single::of(n).times_spec(k).finite(),
        Single::of(n).times_spec(k).value() == rounded(n * k.units()),
{
    let m = (if n >= 0 {
        n
    } else {
        -n
    }) as nat;
    let a = Single::of(n);
    let u = pow2(149);
    lemma_of_value(n);
    lemma_one();
    lemma_magnitude_zero();
    reveal(Single::times_spec);
    assert(a.units() * k.units() == (m * k.units()) * u) by (nonlinear_arith)
        requires
            a.units() == m * u,
    ;
    assert(1 * u == u);
    lemma_code_scale(m * k.units(), 1, u, 24);
    lemma_pow2_adds(18, 170);
    lemma_pow2_strictly_increases(188, 200);
    assert(pow2(18) == 0x4_0000) by {
        lemma2_to64();
    }
    assert(m * k.units() <= pow2(200) * 1) by (nonlinear_arith)
        requires
            m <= 0x2_0000,
            0 <= k.units() <= pow2(170),
            0x4_0000 * pow2(170) == pow2(188),
            pow2(188) < pow2(200),
    ;
    lemma_far_from_overflow(m * k.units(), 1);
    assert((n >= 0 ==> n * k.units() == m * k.units()) && (n < 0 ==> n * k.units() < 0 && -(n
        * k.units()) == m * k.units())) by (nonlinear_arith)
        requires
            n >= 0 ==> m == n,
            n < 0 ==> m == -n,
            k.units() > 0,
    ;
}

/// The weights as singles, and the scale.
proof fn lemma_weights()
    ensures
        (Single { bits: LUMA_RED }).units() == 28534688 * pow2(137),
        (Single { bits: LUMA_GREEN }).units() == 95992520 * pow2(137),
        (Single { bits: LUMA_BLUE }).units() == 9690520 * pow2(137),
        (Single { bits: SCALE }).units() == pow2(164),
        pow2(149) == 4096 * pow2(137),
        pow2(164) == 32768 * pow2(149),
{
    assert(pow2(23) == 0x80_0000 && pow2(1) == 2 && pow2(3) == 8 && pow2(12) == 4096 && pow2(15)
        == 32768) by {
        lemma2_to64();
    }
    lemma_pow2_adds(1, 137);
    lemma_pow2_adds(3, 137);
    lemma_pow2_adds(12, 137);
    lemma_pow2_adds(15, 149);
    lemma_pow2_adds(23, 141);
    assert(LUMA_RED as nat / 0x80_0000 == 139 && LUMA_RED as nat % 0x80_0000 == 5878736);
    assert(magnitude(LUMA_RED as nat, 24) == (5878736 + pow2(23)) * pow2(138));
    assert(14267344 * pow2(138) == 28534688 * pow2(137)) by (nonlinear_arith)
        requires
            pow2(138) == 2 * pow2(137),
    ;
    assert(LUMA_GREEN as nat / 0x80_0000 == 141 && LUMA_GREEN as nat % 0x80_0000 == 3610457);
    assert(magnitude(LUMA_GREEN as nat, 24) == (3610457 + pow2(23)) * pow2(140));
    assert(11999065 * pow2(140) == 95992520 * pow2(137)) by (nonlinear_arith)
        requires
            pow2(140) == 8 * pow2(137),
    ;
    assert(LUMA_BLUE as nat / 0x80_0000 == 138 && LUMA_BLUE as nat % 0x80_0000 == 1301912);
    assert(magnitude(LUMA_BLUE as nat, 24) == (1301912 + pow2(23)) * pow2(137));
    assert(SCALE as nat / 0x80_0000 == 142 && SCALE as nat % 0x80_0000 == 0);
    assert(magnitude(SCALE as nat, 24) == (0 + pow2(23)) * pow2(141));
}

/// A value divided by 2^15, in a single.
proof fn lemma_scaled_down(a: Single)
    requires
        a.finite(),
        small(a.value()),
    ensures
        ({
            let q = a.over_spec(Single { bits: SCALE });
            &&& q.finite()
            &&& a.value() >= 0 ==> q.value() >= 0
            &&& a.value() >= 0 ==> -a.value() - 32768 * 0x80_0000 <= (32768 * q.value()
                - a.value()) * 0x100_0000 <= a.value() + 32768 * 0x80_0000
            &&& a.value() <= 0 ==> a.value() - 32768 * 0x80_0000 <= (32768 * q.value()
                - a.value()) * 0x100_0000 <= -a.value() + 32768 * 0x80_0000
        }),
{
    let q = a.over_spec(Single { bits: SCALE });
    let u = pow2(149);
    lemma_weights();
    lemma_one();
    lemma_magnitude_zero();
    reveal(Single::over_spec);
    assert(32768 * u == pow2(164));
    lemma_code_scale(a.units(), 32768, u, 24);
    assert(a.units() <= pow2(200) * 32768) by (nonlinear_arith)
        requires
            a.units() <= pow2(200),
    ;
    lemma_far_from_overflow(a.units(), 32768);
    lemma_code_error(a.units(), 32768, 24);
    assert(pow2(23) == 0x80_0000) by {
        lemma2_to64();
    }
    let y = magnitude(nearest(a.units(), 32768), 24);
    let m = a.units();
    assert((32768 * y) * 0x100_0000 <= m * 0x100_0000 + m + 32768 * 0x80_0000 && m * 0x100_0000 <= (
    32768 * y) * 0x100_0000 + m + 32768 * 0x80_0000) by (nonlinear_arith)
        requires
            2 * (y * 32768) * 0x80_0000 <= 2 * m * 0x80_0000 + m + 32768 * 0x80_0000,
            2 * m * 0x80_0000 <= 2 * (y * 32768) * 0x80_0000 + m + 32768 * 0x80_0000,
    ;
    assert(q.units() == y);
    if m == 0 {
        crate::range::lemma_nearest_at_most(0, 32768, 0);
    }
}

/// Rounding moves what is within `c` of some large unit by at most `e` of it,
/// if `e` is not below a part in 2^24 of `c`.
proof fn lemma_moved(v: int, c: int, e: int, k: int)
    requires
        small(v),
        -(c * k) <= v <= c * k,
        0 <= c <= e * 0x100_0000,
        k >= 1,
    ensures
        -(e * k) - 1 <= rounded(v) - v <= e * k + 1,
{
    lemma_rounded_error(v);
    let d = rounded(v) - v;
    assert(c * k <= (e * k) * 0x100_0000) by (nonlinear_arith)
        requires
            c <= e * 0x100_0000,
            k >= 1,
    ;
}

/// The exact weighed channels, in units.
proof fn lemma_terms(r: int, g: int, b: int, k: int)
    requires
        -65540 <= r <= 65540,
        -65540 <= g <= 65540,
        -65540 <= b <= 65540,
        k > 0,
    ensures
        -(1870163451520 * k) <= r * (28534688 * k) <= 1870163451520 * k,
        -(6291349760800 * k) <= g * (95992520 * k) <= 6291349760800 * k,
        -(635116680800 * k) <= b * (9690520 * k) <= 635116680800 * k,
        r * (28534688 * k) + g * (95992520 * k) + b * (9690520 * k) == weighed(r, g, b) * k,
        r >= 0 ==> r * (28534688 * k) >= 0,
        g >= 0 ==> g * (95992520 * k) >= 0,
        b >= 0 ==> b * (9690520 * k) >= 0,
{
    let (p, q, s) = (r * k, g * k, b * k);
    assert(-(65540 * k) <= p <= 65540 * k && -(65540 * k) <= q <= 65540 * k && -(65540 * k) <= s
        <= 65540 * k && (r >= 0 ==> p >= 0) && (g >= 0 ==> q >= 0) && (b >= 0 ==> s >= 0))
        by (nonlinear_arith)
        requires
            p == r * k,
            q == g * k,
            s == b * k,
            -65540 <= r <= 65540,
            -65540 <= g <= 65540,
            -65540 <= b <= 65540,
            k > 0,
    ;
    assert(r * (28534688 * k) == 28534688 * p && g * (95992520 * k) == 95992520 * q && b * (9690520
        * k) == 9690520 * s) by (nonlinear_arith)
        requires
            p == r * k,
            q == g * k,
            s == b * k,
    ;
    assert(weighed(r, g, b) * k == 28534688 * p + 95992520 * q + 9690520 * s) by (nonlinear_arith)
        requires
            weighed(r, g, b) == 28534688 * r + 95992520 * g + 9690520 * b,
            p == r * k,
            q == g * k,
            s == b * k,
    ;
}

/// The computed luminance is within a 64th of the exact one, and of its sign.
proof fn lemma_luminance(r: int, g: int, b: int)
    requires
        -65540 <= r <= 65540,
        -65540 <= g <= 65540,
        -65540 <= b <= 65540,
    ensures
        ({
            let l = luminance(r, g, b);
            &&& l.finite()
            &&& -(pow2(149) as int) <= 64 * (l.value() - weighed(r, g, b) * pow2(122)) <= pow2(149)
            &&& r >= 0 && g >= 0 && b >= 0 ==> l.value() >= 0
        }),
{
    let k = pow2(137) as int;
    let (wr, wg, wb) = (
        Single { bits: LUMA_RED },
        Single { bits: LUMA_GREEN },
        Single { bits: LUMA_BLUE },
    );
    lemma_weights();
    lemma_room();
    lemma_terms(r, g, b, k);
    lemma_weighed(r, wr);
    lemma_weighed(g, wg);
    lemma_weighed(b, wb);
    let x = Single::of(r).times_spec(wr);
    let y = Single::of(g).times_spec(wg);
    let z = Single::of(b).times_spec(wb);
    let (ex, ey, ez) = (r * (28534688 * k), g * (95992520 * k), b * (9690520 * k));
    lemma_moved(ex, 1870163451520, 111471, k);
    lemma_moved(ey, 6291349760800, 374994, k);
    lemma_moved(ez, 635116680800, 37856, k);
    let s = x.plus_spec(y);
    let v = x.value() + y.value();
    assert(-(8161514000000 * k) <= v <= 8161514000000 * k);
    lemma_plus_value(x, y);
    lemma_finite_sum(x, y);
    lemma_moved(v, 8161514000000, 486465, k);
    let t = s.plus_spec(z);
    let w = s.value() + z.value();
    assert(-(8796632000000 * k) <= w <= 8796632000000 * k);
    lemma_plus_value(s, z);
    lemma_finite_sum(s, z);
    lemma_moved(w, 8796632000000, 524321, k);
    lemma_scaled_down(t);
    let l = t.over_spec(Single { bits: SCALE });
    let exact = weighed(r, g, b) * k;
    assert(-(1535107 * k) - 5 <= t.value() - exact <= 1535107 * k + 5);
    assert(-(524322 * k) - 16384 <= 32768 * l.value() - t.value() <= 524322 * k + 16384);
    lemma_pow2_adds(15, 122);
    assert(pow2(15) == 32768) by {
        lemma2_to64();
    }
    assert(exact == 32768 * (weighed(r, g, b) * pow2(122))) by (nonlinear_arith)
        requires
            exact == weighed(r, g, b) * k,
            k == 32768 * pow2(122),
    ;
    if r >= 0 && g >= 0 && b >= 0 {
        lemma_rounded_monotone(0, ex);
        lemma_rounded_monotone(0, ey);
        lemma_rounded_monotone(0, ez);
        lemma_rounded_monotone(0, v);
        lemma_rounded_monotone(0, w);
    }
}

/// There is room for the sums.
proof fn lemma_room()
    ensures
        10000000000000 * pow2(137) <= pow2(200),
        95992520 * pow2(137) <= pow2(170),
        pow2(137) >= 0x1_0000_0000_0000_0000,
{
    lemma2_to64();
    lemma_pow2_adds(64, 73);
    lemma_pow2_adds(63, 137);
    lemma_pow2_adds(33, 137);
    lemma_pow2_adds(32, 31);
    lemma_pow2_unfold(33);
    lemma_pow2_pos(73);
    lemma_pow2_pos(137);
    assert(pow2(137) >= pow2(64)) by (nonlinear_arith)
        requires
            pow2(137) == pow2(64) * pow2(73),
            pow2(73) >= 1,
    ;
    assert(10000000000000 * pow2(137) <= pow2(200)) by (nonlinear_arith)
        requires
            pow2(200) == pow2(63) * pow2(137),
            pow2(63) == 0x1_0000_0000 * 0x8000_0000,
            pow2(137) >= 0,
    ;
    assert(95992520 * pow2(137) <= pow2(170)) by (nonlinear_arith)
        requires
            pow2(170) == pow2(33) * pow2(137),
            pow2(33) == 2 * 0x1_0000_0000,
            pow2(137) >= 0,
    ;
}

/// A sum that is far from overflow is finite.
proof fn lemma_finite_sum(a: Single, b: Single)
    requires
        a.finite(),
        b.finite(),
        small(a.value() + b.value()),
    ensures
        a.plus_spec(b).finite(),
{
    let v = a.value() + b.value();
    reveal(Single::plus_spec);
    lemma_far_from_overflow(
        (if v >= 0 {
            v
        } else {
            -v
        }) as nat,
        1,
    );
}

/// How far an exact value lies from where its scaled and cut one does.
proof fn lemma_stage(x: int, y: int, f: int, g: int, to: int, from: int)
    requires
        x * from == to * y + f,
        -(g * from) <= f <= g * from,
        0 <= to <= from,
        from > 0,
        g >= 0,
    ensures
        y >= 0 ==> -g <= x <= y + g,
        y <= 0 ==> y - g <= x <= g,
{
    assert((y >= 0 ==> 0 <= to * y <= from * y) && (y <= 0 ==> from * y <= to * y <= 0))
        by (nonlinear_arith)
        requires
            0 <= to <= from,
    ;
    assert((y >= 0 ==> -g <= x <= y + g) && (y <= 0 ==> y - g <= x <= g)) by (nonlinear_arith)
        requires
            x * from == to * y + f,
            -(g * from) <= f <= g * from,
            y >= 0 ==> 0 <= to * y <= from * y,
            y <= 0 ==> from * y <= to * y <= 0,
            from > 0,
    ;
}

/// What cutting takes from a scaled distance.
proof fn lemma_cut_error(c: int, lum: int, to: int, from: int)
    requires
        0 <= to,
        from > 0,
    ensures
        ({
            let e = (clipped(c, lum, to, from) - lum) * from - (c - lum) * to;
            &&& -from <= e <= from
            &&& c >= lum ==> e <= 0
            &&& c <= lum ==> e >= 0
        }),
{
    let n = (c - lum) * to;
    assert((c >= lum ==> n >= 0) && (c <= lum ==> n <= 0)) by (nonlinear_arith)
        requires
            n == (c - lum) * to,
            to >= 0,
    ;
    let m = if n >= 0 {
        n
    } else {
        -n
    };
    lemma_fundamental_div_mod(m, from);
    lemma_mod_bound(m, from);
    let q = m / from;
    assert(from * q == q * from) by (nonlinear_arith);
    assert((-q) * from == -(q * from)) by (nonlinear_arith);
}

/// The exact luminance of a colour that is brought nearer to `lum`.
proof fn lemma_clipped_luminance(
    r: int,
    g: int,
    b: int,
    lum: int,
    to: int,
    from: int,
    both: bool,
)
    requires
        0 <= to <= from,
        from > 0,
        both ==> least(r, g, b) <= lum <= greatest(r, g, b),
    ensures
        ({
            let x = weighed(
                clipped(r, lum, to, from),
                clipped(g, lum, to, from),
                clipped(b, lum, to, from),
            ) - 134217728 * lum;
            let y = weighed(r, g, b) - 134217728 * lum;
            let e = if both {
                124527208
            } else {
                134217728int
            };
            &&& y >= 0 ==> -e <= x <= y + e
            &&& y <= 0 ==> y - e <= x <= e
        }),
{
    let (r1, g1, b1) = (
        clipped(r, lum, to, from),
        clipped(g, lum, to, from),
        clipped(b, lum, to, from),
    );
    lemma_cut_error(r, lum, to, from);
    lemma_cut_error(g, lum, to, from);
    lemma_cut_error(b, lum, to, from);
    let er = (r1 - lum) * from - (r - lum) * to;
    let eg = (g1 - lum) * from - (g - lum) * to;
    let eb = (b1 - lum) * from - (b - lum) * to;
    let f = 28534688 * er + 95992520 * eg + 9690520 * eb;
    let x = weighed(r1, g1, b1) - 134217728 * lum;
    let y = weighed(r, g, b) - 134217728 * lum;
    assert(x * from == to * y + f) by (nonlinear_arith)
        requires
            x == 28534688 * (r1 - lum) + 95992520 * (g1 - lum) + 9690520 * (b1 - lum),
            y == 28534688 * (r - lum) + 95992520 * (g - lum) + 9690520 * (b - lum),
            er == (r1 - lum) * from - (r - lum) * to,
            eg == (g1 - lum) * from - (g - lum) * to,
            eb == (b1 - lum) * from - (b - lum) * to,
            f == 28534688 * er + 95992520 * eg + 9690520 * eb,
    ;
    let e = if both {
        124527208
    } else {
        134217728int
    };
    lemma_stage(x, y, f, e, to, from);
}

/// Where the exact luminance lies once it was computed and cut.
proof fn lemma_cut_luminance(r: int, g: int, b: int)
    requires
        -65540 <= r <= 65540,
        -65540 <= g <= 65540,
        -65540 <= b <= 65540,
    ensures
        ({
            let w = weighed(r, g, b);
            let l = luminance(r, g, b);
            let c = l.to_i32_spec();
            let n = l.to_u16_spec();
            &&& 64 * w - 65 * 134217728 <= (64 * c) * 134217728 <= 64 * w + 65 * 134217728
            &&& r >= 0 && g >= 0 && b >= 0 && w <= 32768 * 134217728 ==> 64 * w - 65 * 134217728
                <= (64 * n) * 134217728 <= 64 * w + 134217728
        }),
{
    let w = weighed(r, g, b);
    let l = luminance(r, g, b);
    let h = pow2(122) as int;
    let u = pow2(149) as int;
    lemma_luminance(r, g, b);
    lemma_pow2_pos(122);
    lemma_pow2_adds(27, 122);
    assert(pow2(27) == 134217728) by {
        lemma2_to64();
    }
    lemma_fundamental_div_mod(l.units() as int, u);
    lemma_mod_bound(l.units() as int, u);
    let q = l.units() as int / u;
    lemma_div_pos_is_pos(l.units() as int, u);
    assert(u * q == (134217728 * q) * h) by (nonlinear_arith)
        requires
            u == 134217728 * h,
    ;
    // The value, in units of 2^-27 and with its error, holds the cut one.
    assert(64 * (w * h) == (64 * w) * h) by (nonlinear_arith);
    assert(w <= 13421772800000 && w >= -13421772800000);
    if l.value() >= 0 {
        assert((64 * w - 65 * 134217728) * h <= (64 * (134217728 * q)) * h && (64 * (134217728 * q))
            * h <= (64 * w + 134217728) * h) by (nonlinear_arith)
            requires
                l.units() == (134217728 * q) * h + l.units() as int % u,
                0 <= l.units() as int % u < 134217728 * h,
                -(134217728 * h) <= 64 * (l.units() - w * h) <= 134217728 * h,
        ;
        lemma_cancel(64 * w - 65 * 134217728, 64 * (134217728 * q), h);
        lemma_cancel(64 * (134217728 * q), 64 * w + 134217728, h);
        assert(q <= 200000);
        assert(l.truncated() == q);
    } else {
        assert((64 * w - 134217728) * h <= (64 * (134217728 * -q)) * h && (64 * (134217728 * -q))
            * h <= (64 * w + 65 * 134217728) * h) by (nonlinear_arith)
            requires
                l.units() == (134217728 * q) * h + l.units() as int % u,
                0 <= l.units() as int % u < 134217728 * h,
                -(134217728 * h) <= 64 * (-l.units() - w * h) <= 134217728 * h,
        ;
        lemma_cancel(64 * w - 134217728, 64 * (134217728 * -q), h);
        lemma_cancel(64 * (134217728 * -q), 64 * w + 65 * 134217728, h);
        assert(q <= 200000);
        assert(l.truncated() == -q);
    }
}

proof fn lemma_cancel(a: int, b: int, h: int)
    requires
        a * h <= b * h,
        h > 0,
    ensures
        a <= b,
{
    assert(a <= b) by (nonlinear_arith)
        requires
            a * h <= b * h,
            h > 0,
    ;
}

/// Bringing a colour back into range moves its exact luminance by less than
/// three, beyond what the luminance it is brought nearer to is off.
proof fn lemma_gamut_luminance(r: int, g: int, b: int, lum: int)
    requires
        0 <= lum <= 32768,
        -67 * 134217728 <= 64 * (weighed(r, g, b) - 134217728 * lum) <= 67 * 134217728,
    ensures
        ({
            let low = least(r, g, b);
            let high = greatest(r, g, b);
            let d = weighed(
                in_gamut(r, lum, low, high),
                in_gamut(g, lum, low, high),
                in_gamut(b, lum, low, high),
            ) - weighed(r, g, b);
            -187 * 134217728 <= 64 * d <= 187 * 134217728
        }),
{
    let low = least(r, g, b);
    let high = greatest(r, g, b);
    let both = low < 0 && high > 32768;
    if low < 0 {
        lemma_clipped_luminance(r, g, b, lum, lum, lum - low, both);
    }
    let (r1, g1, b1) = if low < 0 {
        (
            clipped(r, lum, lum, lum - low),
            clipped(g, lum, lum, lum - low),
            clipped(b, lum, lum, lum - low),
        )
    } else {
        (r, g, b)
    };
    if high > 32768 {
        if both {
            lemma_side(r, lum, lum, lum - low);
            lemma_side(g, lum, lum, lum - low);
            lemma_side(b, lum, lum, lum - low);
        }
        lemma_clipped_luminance(r1, g1, b1, lum, 32768 - lum, high - lum, both);
    }
}

/// What is brought nearer to the luminance stays on its side.
proof fn lemma_side(c: int, lum: int, to: int, from: int)
    requires
        0 <= to <= from,
        from > 0,
    ensures
        c <= lum ==> clipped(c, lum, to, from) <= lum,
        c >= lum ==> clipped(c, lum, to, from) >= lum,
{
    lemma_cut_within(c - lum, to, from);
}

/// Giving a colour the luminance of another gives it that luminance, to within
/// four of 32768 steps.
pub proof fn law_colouring_keeps_luminance(s: Source, r: int, g: int, b: int)
    requires
        s.wf(),
        0 <= r <= 32768,
        0 <= g <= 32768,
        0 <= b <= 32768,
    ensures
        ({
            let c = with_luminance(s, r, g, b);
            let d = luminance(c.0, c.1, c.2).value() - luminance(r, g, b).value();
            -(4 * pow2(149) as int) <= d <= 4 * pow2(149)
        }),
{
    let (tr, tg, tb) = (s.r as int, s.g as int, s.b as int);
    let top = luminance(tr, tg, tb).to_u16_spec() as int;
    let bottom = luminance(r, g, b).to_u16_spec() as int;
    let diff = bottom - top;
    let (r1, g1, b1) = (tr + diff, tg + diff, tb + diff);
    lemma_cut_luminance(tr, tg, tb);
    lemma_cut_luminance(r, g, b);
    assert(weighed(tr, tg, tb) <= 32768 * 134217728 && weighed(r, g, b) <= 32768 * 134217728);
    assert(-32770 <= diff <= 32770);
    lemma_cut_luminance(r1, g1, b1);
    let lum = held_luminance(r1, g1, b1);
    let e = weighed(r1, g1, b1);
    assert(e == weighed(tr, tg, tb) + 134217728 * diff);
    assert(-66 * 134217728 <= 64 * (e - weighed(r, g, b)) <= 66 * 134217728);
    lemma_gamut_luminance(r1, g1, b1, lum);
    let c = with_luminance(s, r, g, b);
    law_coloured_stays_in_range(s, r, g, b);
    lemma_luminance(c.0, c.1, c.2);
    lemma_luminance(r, g, b);
    let (w, v) = (weighed(c.0, c.1, c.2), weighed(r, g, b));
    assert(-253 * 134217728 <= 64 * (w - v) <= 253 * 134217728);
    let h = pow2(122) as int;
    lemma_pow2_pos(122);
    lemma_pow2_adds(27, 122);
    assert(pow2(27) == 134217728) by {
        lemma2_to64();
    }
    assert(-(253 * 134217728) * h <= 64 * (w * h - v * h) && 64 * (w * h - v * h) <= (253
        * 134217728) * h) by (nonlinear_arith)
        requires
            -253 * 134217728 <= 64 * (w - v) <= 253 * 134217728,
            h > 0,
    ;
}

} // verus!
