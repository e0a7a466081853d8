//! That a dab lands where it should and leaves what it should.
use crate::blend::{law_full_dab_replaces, rgba, Rgba};
use crate::color::unit;
use crate::draw::{cover, drawn, fringe, local, passed, passes, shape, source, Pass};
use crate::geometry::Ellipse;
use crate::mask::{first_reached, last_reached, mask_at};
use crate::means::{lemma_rest, lemma_same_value, size};
use crate::portions::{held_value, law_fixed_is_the_fraction_of_full, lemma_held_value, numbered};
use crate::range::{
    lemma_finite_or_infinite, lemma_known, lemma_nearest_at_least, lemma_nearest_at_most,
    lemma_negate, lemma_no_units, lemma_one, lemma_plus_near, lemma_plus_value, lemma_rounded_exact,
    lemma_rounded_monotone, lemma_times_near, rounded,
};
use crate::rounding::lemma_magnitude_increases;
use crate::single::{
    law_times_one, lemma_infinity_units, lemma_nearest_exact, lemma_of_exact, Single, HALF,
    INFINITY, ONE,
};
use crate::surface::{Dab, Turn};
use vstd::arithmetic::div_mod::*;
use vstd::arithmetic::power2::*;
use vstd::prelude::*;

verus! {

/// A product that is at most `c`, for factors of at most `a` and `b`.
proof fn lemma_times_at_most(x: Single, y: Single, a: Single, b: Single, c: Single)
    requires
        x.finite(),
        y.finite(),
        a.finite() && !a.negative(),
        b.finite() && !b.negative(),
        c.finite() && !c.negative(),
        size(x.value()) <= a.value(),
        size(y.value()) <= b.value(),
        a.value() * b.value() <= c.value() * pow2(149),
    ensures
        x.times_spec(y).finite(),
        size(x.times_spec(y).value()) <= c.value(),
{
    lemma_one();
    lemma_infinity_units();
    reveal(Single::times_spec);
    let n = x.units() * y.units();
    assert(n <= a.value() * b.value()) by (nonlinear_arith)
        requires
            n == x.units() * y.units(),
            0 <= x.units() <= a.value(),
            0 <= y.units() <= b.value(),
    ;
    lemma_nearest_at_most(n, pow2(149), c.mag());
}

/// A sum that is at most `c` in magnitude.
proof fn lemma_plus_at_most(x: Single, y: Single, c: Single)
    requires
        x.finite(),
        y.finite(),
        c.finite() && !c.negative(),
        size(x.value()) + size(y.value()) <= c.value(),
    ensures
        x.plus_spec(y).finite(),
        size(x.plus_spec(y).value()) <= c.value(),
{
    let v = x.value() + y.value();
    lemma_one();
    lemma_infinity_units();
    lemma_plus_value(x, y);
    lemma_rounded_exact(c);
    lemma_rounded_monotone(v, c.value());
    lemma_rounded_monotone(-c.value(), v);
    assert(rounded(-c.value()) == -rounded(c.value()));
    let s = x.plus_spec(y);
    if !s.finite() {
        lemma_finite_or_infinite(s);
        lemma_magnitude_increases(c.mag(), INFINITY as nat, 24);
    }
}

/// Whole numbers as singles.
proof fn lemma_wholes()
    ensures
        (Single { bits: 0x4000_0000 }).value() == 2 * pow2(149),
        (Single { bits: 0x4080_0000 }).value() == 4 * pow2(149),
        (Single { bits: 0x4100_0000 }).value() == 8 * pow2(149),
        (Single { bits: 0x4180_0000 }).value() == 16 * pow2(149),
        16 * (Single { bits: 0x3d80_0000 }).value() == pow2(149),
        2 * (Single { bits: HALF }).value() == pow2(149),
        (Single { bits: 0x4000_0000 }).finite(),
        (Single { bits: 0x4080_0000 }).finite(),
        (Single { bits: 0x4100_0000 }).finite(),
        (Single { bits: 0x4180_0000 }).finite(),
        (Single { bits: 0x3d80_0000 }).finite(),
        (Single { bits: HALF }).finite(),
{
    lemma_known(0x4000_0000, 0x80_0000, 127);
    lemma_known(0x4080_0000, 0x80_0000, 128);
    lemma_known(0x4100_0000, 0x80_0000, 129);
    lemma_known(0x4180_0000, 0x80_0000, 130);
    lemma_known(0x3d80_0000, 0x80_0000, 122);
    lemma_known(HALF, 0x80_0000, 125);
    lemma_pow2_adds(27, 122);
    lemma_pow2_adds(3, 122);
    lemma_pow2_adds(5, 122);
    lemma_pow2_adds(6, 122);
    lemma_pow2_adds(7, 122);
    lemma_pow2_adds(8, 122);
    assert(pow2(27) == 0x800_0000 && pow2(3) == 8 && pow2(5) == 32 && pow2(6) == 64 && pow2(7)
        == 128 && pow2(8) == 256) by {
        lemma2_to64();
    }
}

/// The squared distance of a point that is at most one away along either axis
/// is at most eight.
proof fn lemma_squared_at_most(dx: Single, dy: Single, e: Ellipse)
    requires
        dx.finite() && size(dx.value()) <= pow2(149),
        dy.finite() && size(dy.value()) <= pow2(149),
        e.cs.finite() && size(e.cs.value()) <= pow2(149),
        e.sn.finite() && size(e.sn.value()) <= pow2(149),
        e.aspect == (Single { bits: ONE }),
    ensures
        e.squared_spec(dx, dy).finite(),
        size(e.squared_spec(dx, dy).value()) <= 8 * pow2(149),
{
    let u = pow2(149) as int;
    let one = Single { bits: ONE };
    let two = Single { bits: 0x4000_0000 };
    let four = Single { bits: 0x4080_0000 };
    let eight = Single { bits: 0x4100_0000 };
    lemma_one();
    lemma_wholes();
    let a = dy.times_spec(e.cs);
    let b = dx.times_spec(e.sn);
    let c = dy.times_spec(e.sn);
    let d = dx.times_spec(e.cs);
    lemma_times_at_most(dy, e.cs, one, one, one);
    lemma_times_at_most(dx, e.sn, one, one, one);
    lemma_times_at_most(dy, e.sn, one, one, one);
    lemma_times_at_most(dx, e.cs, one, one, one);
    lemma_negate(b);
    lemma_plus_at_most(a, b.negate_spec(), two);
    lemma_plus_at_most(c, d, two);
    let across = a.minus_spec(b);
    let along = c.plus_spec(d);
    law_times_one(across);
    assert((2 * u) * (2 * u) == (4 * u) * u) by (nonlinear_arith);
    lemma_times_at_most(across, across, two, two, four);
    lemma_times_at_most(along, along, two, two, four);
    lemma_plus_at_most(across.times_spec(across), along.times_spec(along), eight);
}

/// One over the square of a radius of at least four is at most a sixteenth.
proof fn lemma_inverse_at_most(radius: Single)
    requires
        radius.finite(),
        4 * pow2(149) <= radius.value() <= 1024 * pow2(149),
    ensures
        ({
            let inv = (Single { bits: ONE }).over_spec(radius.times_spec(radius));
            inv.finite() && 16 * size(inv.value()) <= pow2(149)
        }),
{
    let u = pow2(149) as int;
    let one = Single { bits: ONE };
    let sixteen = Single { bits: 0x4180_0000 };
    let part = Single { bits: 0x3d80_0000 };
    lemma_one();
    lemma_wholes();
    lemma_infinity_units();
    let r2 = radius.times_spec(radius);
    let rv = radius.value();
    assert(16 * (u * u) <= rv * rv) by (nonlinear_arith)
        requires
            4 * u <= rv,
            u > 0,
    ;
    assert(rv * rv <= 0x10_0000 * (u * u)) by (nonlinear_arith)
        requires
            0 <= rv <= 1024 * u,
    ;
    lemma_pow2_adds(21, 149);
    assert(pow2(21) == 0x20_0000) by {
        lemma2_to64();
    }
    assert(rv * rv < pow2(170) * pow2(149)) by (nonlinear_arith)
        requires
            rv * rv <= 0x10_0000 * (u * u),
            pow2(170) == 0x20_0000 * u,
            pow2(149) == u,
            u > 0,
    ;
    lemma_times_near(radius, radius, 170);
    let n = radius.units() * radius.units();
    assert(sixteen.units() * pow2(149) <= n) by (nonlinear_arith)
        requires
            n == rv * rv,
            16 * (u * u) <= rv * rv,
            sixteen.units() == 16 * u,
            u == pow2(149),
    ;
    lemma_nearest_at_least(n, pow2(149), sixteen.mag());
    assert(r2.value() >= 16 * u) by {
        reveal(Single::times_spec);
    }
    lemma_no_units(r2);
    let k = r2.units() as int;
    let top = one.units() * pow2(149);
    assert(top <= part.units() * k) by (nonlinear_arith)
        requires
            top == u * u,
            k >= 16 * u,
            16 * part.units() == u,
            u > 0,
    ;
    lemma_nearest_at_most(top, r2.units(), part.mag());
    reveal(Single::over_spec);
}

/// A point that is at most one away along either axis is inside of a round dab
/// of a radius of at least four.
proof fn lemma_near_middle(dx: Single, dy: Single, e: Ellipse, radius: Single)
    requires
        dx.finite() && size(dx.value()) <= pow2(149),
        dy.finite() && size(dy.value()) <= pow2(149),
        e.cs.finite() && size(e.cs.value()) <= pow2(149),
        e.sn.finite() && size(e.sn.value()) <= pow2(149),
        e.aspect == (Single { bits: ONE }),
        radius.finite(),
        4 * pow2(149) <= radius.value() <= 1024 * pow2(149),
    ensures
        ({
            let rr = e.squared_spec(dx, dy).times_spec(
                (Single { bits: ONE }).over_spec(radius.times_spec(radius)),
            );
            rr.finite() && size(rr.value()) <= pow2(149)
        }),
{
    let u = pow2(149) as int;
    let one = Single { bits: ONE };
    let eight = Single { bits: 0x4100_0000 };
    let part = Single { bits: 0x3d80_0000 };
    lemma_one();
    lemma_wholes();
    lemma_squared_at_most(dx, dy, e);
    lemma_inverse_at_most(radius);
    assert((8 * u) * part.value() <= u * u) by (nonlinear_arith)
        requires
            16 * part.value() == u,
            u > 0,
    ;
    lemma_times_at_most(
        e.squared_spec(dx, dy),
        one.over_spec(radius.times_spec(radius)),
        eight,
        part,
        one,
    );
}

/// A solid round dab of a radius of at least four covers fully every pixel whose
/// middle is within one of its centre along either axis, in whatever tile that
/// is.
pub proof fn law_solid_dab_covers_its_middle(dab: Dab, turn: Turn, tx: int, ty: int, x: int, y: int)
    requires
        0 <= x < 64,
        0 <= y < 64,
        size(tx) <= 0x1000,
        size(ty) <= 0x1000,
        dab.x.finite() && dab.y.finite(),
        middle_near(dab.x, tx, x) && middle_near(dab.y, ty, y),
        dab.radius.finite(),
        4 * pow2(149) <= dab.radius.value() <= 1024 * pow2(149),
        !dab.hardness.nan() && dab.hardness.value() >= pow2(149),
        dab.aspect_ratio == (Single { bits: ONE }),
        !(Single { bits: 0 }).lt_spec(dab.anti_aliasing),
        turn.cs.finite() && size(turn.cs.value()) <= pow2(149),
        turn.sn.finite() && size(turn.sn.value()) <= pow2(149),
    ensures
        cover(dab, turn, tx, ty, x, y) == 32768,
{
    let u = pow2(149) as int;
    let one = Single { bits: ONE };
    let s = shape(dab, turn, tx, ty);
    lemma_one();
    lemma_wholes();
    lemma_near_place(dab.x, tx, x, dab.radius);
    lemma_near_place(dab.y, ty, y, dab.radius);
    let px = Single::from_i32_spec(x as i32);
    let py = Single::from_i32_spec(y as i32);
    let half = Single { bits: HALF };
    let dx = px.plus_spec(half).minus_spec(s.x);
    let dy = py.plus_spec(half).minus_spec(s.y);
    lemma_held_value(dab.hardness);
    lemma_same_value(unit(dab.hardness), one);
    lemma_near_middle(dx, dy, s.ellipse, dab.radius);
    lemma_known(0x4040_0000, 0xc0_0000, 127);
    lemma_pow2_adds(22, 127);
    assert(pow2(22) == 0x40_0000) by {
        lemma2_to64();
    }
    lemma_negate(one);
    assert(!(Single { bits: 0 }).le_spec(s.r_aa_start));
    let rr = s.distance_spec(px, py);
    assert(rr.finite() && size(rr.value()) <= u);
    assert(s.opacity_spec(rr) == one);
    law_fixed_is_the_fraction_of_full(one);
    assert(mask_at(s, fringe(dab), x, y) == 32768);
}

/// Whether the middle of pixel `i` of tile `t` is within one of a coordinate,
/// by a small margin.
pub open spec fn middle_near(c: Single, t: int, i: int) -> bool {
    let u = pow2(149) as int;
    2 * size(2 * (64 * t + i) * u + u - 2 * c.value()) <= 3 * u
}

/// A pixel near a dab, as a tile sees it.
proof fn lemma_near_place(c: Single, t: int, i: int, radius: Single)
    requires
        0 <= i < 64,
        size(t) <= 0x1000,
        c.finite(),
        middle_near(c, t, i),
        radius.finite(),
        4 * pow2(149) <= radius.value() <= 1024 * pow2(149),
    ensures
        ({
            let px = Single::of(i);
            let d = px.plus_spec(Single { bits: HALF }).minus_spec(local(c, t));
            let f = radius.plus_spec(Single { bits: ONE });
            &&& d.finite()
            &&& size(d.value()) <= pow2(149)
            &&& first_reached(local(c, t), f) <= i <= last_reached(local(c, t), f)
        }),
{
    let u = pow2(149) as int;
    let one = Single { bits: ONE };
    let half = Single { bits: HALF };
    let px = Single::of(i);
    let l = local(c, t);
    lemma_one();
    lemma_wholes();
    lemma_of_exact(i as nat);
    lemma_of_whole(64 * t);
    let w = pow2(125) as int;
    lemma_pow2_adds(24, 125);
    lemma_pow2_adds(20, 149);
    lemma_pow2_adds(11, 149);
    lemma_pow2_adds(11, 125);
    lemma_pow2_pos(125);
    assert(pow2(24) == 0x100_0000 && pow2(20) == 0x10_0000 && pow2(11) == 0x800) by {
        lemma2_to64();
    }
    let off = Single::of(64 * t);
    assert((64 * t) * u == 64 * (t * u)) by (nonlinear_arith);
    assert(2 * (64 * t + i) * u == 128 * (t * u) + 2 * (i * u)) by (nonlinear_arith);
    assert(-0x1000 * u <= t * u <= 0x1000 * u) by (nonlinear_arith)
        requires
            -0x1000 <= t <= 0x1000,
            u > 0,
    ;
    assert(0 <= i * u <= 63 * u) by (nonlinear_arith)
        requires
            0 <= i <= 63,
            u > 0,
    ;
    lemma_negate(off);
    lemma_plus_near(c, off.negate_spec(), 160);
    // The place of the dab in the tile: within a small margin.
    assert(size(l.value() - (c.value() - off.value())) <= 0x800 * w);
    lemma_plus_near(px, half, 160);
    let m = px.plus_spec(half);
    lemma_negate(l);
    lemma_plus_near(m, l.negate_spec(), 160);
    let d = m.minus_spec(l);
    assert(size(d.value()) <= u);
    // The fringe.
    let f = radius.plus_spec(one);
    lemma_plus_near(radius, one, 160);
    assert(f.value() >= 4 * u);
    lemma_negate(f);
    lemma_plus_near(l, f.negate_spec(), 160);
    lemma_plus_near(l, f, 160);
    let (a, b) = (l.minus_spec(f), l.plus_spec(f));
    assert(a.value() <= i * u && i * u <= b.value());
    lemma_floor_order(a.value(), i, u);
    lemma_floor_order_up(b.value(), i, u);
}

proof fn lemma_floor_order(v: int, i: int, u: int)
    requires
        u > 0,
        i >= 0,
        v <= i * u,
    ensures
        v / u <= i,
{
    lemma_div_is_ordered(v, i * u, u);
    lemma_div_by_multiple(i, u);
}

proof fn lemma_floor_order_up(v: int, i: int, u: int)
    requires
        u > 0,
        i >= 0,
        v >= i * u,
    ensures
        v / u >= i,
{
    lemma_div_is_ordered(i * u, v, u);
    lemma_div_by_multiple(i, u);
}

/// A whole number of up to 24 bits, of either sign.
proof fn lemma_of_whole(n: int)
    requires
        -0x100_0000 < n < 0x100_0000,
    ensures
        Single::of(n).finite(),
        Single::of(n).value() == n * pow2(149),
{
    if n >= 0 {
        lemma_of_exact(n as nat);
    } else {
        let k = (-n) as nat;
        reveal(Single::of);
        assert((k * pow2(149)) * 1 == k * pow2(149));
        lemma_nearest_exact(k * pow2(149), 1, k, 149);
        assert(-n * pow2(149) == k * pow2(149));
        assert(n * pow2(149) == -(k * pow2(149))) by (nonlinear_arith)
            requires
                k == -n,
        ;
    }
}

/// Where a dab of full opacity that only paints covers fully, it leaves its own
/// colour, opaque; and where it does not cover it leaves the pixel as it was.
pub proof fn law_full_dab_leaves_its_colour(dab: Dab, p: [u16; 4])
    requires
        numbered(dab),
        held_value(dab.opaque) == pow2(149),
        held_value(dab.lock_alpha) == 0,
        held_value(dab.colorize) == 0,
        held_value(dab.posterize) == 0,
        held_value(dab.paint) == 0,
        held_value(dab.alpha_eraser) == pow2(149),
        source(dab).wf(),
    ensures
        ({
            let s = source(dab);
            drawn(dab, rgba(p), 32768) == (Rgba {
                r: s.r as int,
                g: s.g as int,
                b: s.b as int,
                a: 32768,
            })
        }),
        drawn(dab, rgba(p), 0) == rgba(p),
{
    let u = pow2(149) as int;
    let one = Single { bits: ONE };
    let zero = Single { bits: 0 };
    lemma_one();
    lemma_held_value(dab.opaque);
    lemma_held_value(dab.lock_alpha);
    lemma_held_value(dab.colorize);
    lemma_held_value(dab.posterize);
    lemma_held_value(dab.paint);
    lemma_held_value(dab.alpha_eraser);
    lemma_rest(unit(dab.lock_alpha));
    lemma_rest(unit(dab.colorize));
    lemma_rest(unit(dab.posterize));
    lemma_rest(unit(dab.paint));
    lemma_same_value(unit(dab.opaque), one);
    lemma_same_value(unit(dab.alpha_eraser), one);
    law_times_one(one);
    law_fixed_is_the_fraction_of_full(one);
    let ps = passes(dab);
    assert(ps =~= seq![Pass::Normal { opacity: 32768 }]);
    reveal_with_fuel(passed, 2);
    law_full_dab_replaces(p, 32768, source(dab), 32768);
}

} // verus!
