//! What a colour that is picked up as pigment can be.
use crate::bounds::lemma_seen;
use crate::color::{unit, RgbaF32};
use crate::draw::{lemma_inverse_square_has_no_sign, TileRange};
use crate::fix15::{fraction, lemma_fraction_is_exact};
use crate::geometry::{law_coverage_is_at_most_one, Shape};
use crate::mask::{listed, mask_at, MaskEntry};
use crate::mixing::{lemma_mixing_stays, lemma_seen_is_number, lemma_spectrum_within, within, BOUND};
use crate::pigment::{
    canvas_scan, new_share, nothing, old_share, picked, pigment_color, spot_scan, thinning,
    tile_scan, weighed_alpha, Pickup, Scan, Thinning, FULL, FULL_SQUARED,
};
use crate::rand::SampleRng;
use crate::range::{
    in_unit, lemma_finite_or_infinite, lemma_known, lemma_nearest_at_least, lemma_nearest_at_most,
    lemma_negate, lemma_no_units, lemma_one, lemma_over_order, lemma_plus_at_least,
    lemma_plus_value, lemma_rest_in_unit, lemma_rounded_exact, lemma_rounded_monotone,
    lemma_share_order, lemma_unit_in_unit, rounded,
};
use crate::rounding::{lemma_absorbed, magnitude};
use crate::sampling::{
    nth_tx, nth_ty, sample_radius, spot, spot_mask, spot_range, tile_at, tile_pixel, tile_total,
};
use crate::single::{
    law_times_commutes, law_times_one, lemma_infinity_units, lemma_magnitude_zero,
    lemma_nearest_exact, lemma_of_exact, lemma_plus_commutes, Single, ONE,
};
use crate::spectral::{seen, spectrum};
use crate::tile::TilePixels;
use vstd::arithmetic::power2::*;
use vstd::prelude::*;

verus! {

/// A number of at least zero and at most 2^k units.
pub open spec fn below(v: Single, k: nat) -> bool {
    v.finite() && 0 <= v.value() <= pow2(k)
}

/// What is so small against a bound that it is lost there does not lead above
/// the bound.
proof fn lemma_sum_stays(v: Single, c: Single, k: nat, e: nat)
    requires
        below(v, k),
        below(c, e),
        e + 26 <= k <= 250,
    ensures
        below(v.plus_spec(c), k),
{
    let a = pow2(23);
    let ea = (k - 23) as nat;
    lemma_pow2_unfold(24);
    lemma_pow2_pos(23);
    lemma_pow2_adds(23, ea);
    lemma_pow2_adds(2, e);
    lemma_pow2_pos(e);
    assert(pow2(2) == 4) by {
        lemma2_to64();
    }
    lemma_pow2_strictly_increases(e + 2, ea);
    lemma_absorbed(a, ea, pow2(e), 24);
    lemma_absorbed(a, ea, 0, 24);
    let top = (1 * pow2(k)) * 1;
    lemma_nearest_exact(top, 1, 1, k);
    assert(rounded(pow2(k) as int) == pow2(k));
    assert(rounded((pow2(k) + pow2(e)) as int) == pow2(k));
    lemma_plus_value(v, c);
    lemma_rounded_monotone(0, v.value() + c.value());
    lemma_rounded_monotone(v.value() + c.value(), (pow2(k) + pow2(e)) as int);
    let s = v.plus_spec(c);
    if !s.finite() {
        lemma_finite_or_infinite(s);
        lemma_pow2_strictly_increases(k, 277);
    }
}

/// The share of a pixel's coverage.
proof fn lemma_weight(mask: int)
    requires
        0 <= mask <= 32768,
    ensures
        below(Single::of(mask).over_spec(Single { bits: FULL }), 149),
{
    let m = mask as u16;
    lemma_fraction_is_exact(m);
    assert(fraction(m) == Single::of(mask).over_spec(Single { bits: FULL }));
    lemma_pow2_adds(15, 134);
    assert(pow2(15) == 32768) by {
        lemma2_to64();
    }
    lemma_pow2_pos(134);
    assert(m * pow2(134) <= 32768 * pow2(134)) by (nonlinear_arith)
        requires
            m <= 32768,
            pow2(134) > 0,
    ;
}

/// What the constants of weighing stand for.
proof fn lemma_weighing()
    ensures
        pow2(164) == 32768 * pow2(149),
        pow2(165) == 65536 * pow2(149),
        (Single { bits: FULL_SQUARED }).units() == pow2(179),
        pow2(164) * pow2(165) == pow2(180) * pow2(149),
        pow2(180) * pow2(149) == pow2(150) * pow2(179),
        pow2(149) > 0,
        pow2(179) > 0,
        pow2(150) < pow2(277),
        pow2(180) < pow2(277),
{
    assert(pow2(15) == 32768 && pow2(16) == 65536 && pow2(23) == 0x80_0000) by {
        lemma2_to64();
    }
    lemma_pow2_adds(15, 149);
    lemma_pow2_adds(16, 149);
    lemma_pow2_adds(23, 156);
    lemma_pow2_adds(164, 165);
    lemma_pow2_adds(180, 149);
    lemma_pow2_adds(150, 179);
    lemma_pow2_pos(149);
    lemma_pow2_pos(179);
    lemma_pow2_strictly_increases(150, 277);
    lemma_pow2_strictly_increases(180, 277);
    assert(FULL_SQUARED as nat / 0x80_0000 == 157 && FULL_SQUARED as nat % 0x80_0000 == 0);
    assert(magnitude(FULL_SQUARED as nat, 24) == (0 + pow2(23)) * pow2(156));
}

/// The most that a coverage times an alpha can be.
proof fn lemma_most_alpha()
    ensures
        ({
            let top = Single::of(32768).times_spec(Single::of(65536));
            let q = top.over_spec(Single { bits: FULL_SQUARED });
            &&& top.finite() && top.value() == pow2(180)
            &&& q.finite() && q.value() == pow2(150)
        }),
{
    let top = Single::of(32768).times_spec(Single::of(65536));
    lemma_of_exact(65536);
    lemma_of_exact(32768);
    lemma_weighing();
    lemma_infinity_units();
    assert(top.finite() && !top.negative() && top.units() == pow2(180)) by {
        reveal(Single::times_spec);
        lemma_nearest_exact((1 * pow2(180)) * pow2(149), pow2(149), 1, 180);
    }
    reveal(Single::over_spec);
    lemma_no_units(Single { bits: FULL_SQUARED });
    lemma_nearest_exact((1 * pow2(150)) * pow2(179), pow2(179), 1, 150);
}

/// The weighed alpha of a pixel is between zero and two.
pub proof fn lemma_weighed_alpha(mask: int, alpha: int)
    requires
        0 <= mask <= 32768,
        0 <= alpha <= 65535,
    ensures
        below(weighed_alpha(mask, alpha), 150),
{
    let m = Single::of(mask);
    let a = Single::of(alpha);
    let big = Single::of(65536);
    let full = Single::of(32768);
    let k = Single { bits: FULL_SQUARED };
    let x = m.times_spec(a);
    lemma_of_exact(mask as nat);
    lemma_of_exact(alpha as nat);
    lemma_of_exact(65536);
    lemma_of_exact(32768);
    lemma_weighing();
    lemma_infinity_units();
    assert(0 <= mask * pow2(149) <= 32768 * pow2(149) && 0 <= alpha * pow2(149) <= 65536 * pow2(
        149,
    )) by (nonlinear_arith)
        requires
            0 <= mask <= 32768,
            0 <= alpha <= 65535,
            pow2(149) > 0,
    ;
    // The product is at most 2^31.
    lemma_share_order(m, a, big);
    lemma_share_order(big, m, full);
    law_times_commutes(big, m);
    law_times_commutes(big, full);
    lemma_most_alpha();
    let top = full.times_spec(big);
    if !x.finite() {
        lemma_finite_or_infinite(x);
    }
    // Divided by 2^30 that is at most 2.
    lemma_over_order(x, top, k);
    let r = weighed_alpha(mask, alpha);
    if !r.finite() {
        lemma_finite_or_infinite(r);
    }
}

/// A pixel without alpha adds none.
proof fn lemma_no_alpha(mask: int)
    requires
        0 <= mask <= 32768,
    ensures
        weighed_alpha(mask, 0) == (Single { bits: 0 }),
{
    lemma_of_exact(mask as nat);
    lemma_of_exact(0);
    lemma_weighing();
    lemma_magnitude_zero();
    assert(0 * pow2(149) == 0);
    lemma_no_units(Single::of(0));
    lemma_no_units(Single { bits: FULL_SQUARED });
    reveal(Single::times_spec);
    reveal(Single::over_spec);
    assert(Single::of(mask).units() * 0 == 0);
    lemma_nearest_at_most(0, pow2(149), 0);
    lemma_nearest_at_most(0, pow2(179), 0);
}

/// The share of a new pixel is between zero and one, and so is the other.
pub proof fn lemma_shares(a: Single, sum: Single)
    requires
        below(a, 150),
        below(sum, 176),
    ensures
        below(new_share(a, sum), 149),
        below(old_share(a, sum), 149),
{
    let one = Single { bits: ONE };
    let s = a.plus_spec(sum);
    lemma_one();
    lemma_infinity_units();
    if (Single { bits: 0 }).lt_spec(s) {
        lemma_plus_value(a, sum);
        lemma_rounded_exact(a);
        lemma_rounded_monotone(a.value(), a.value() + sum.value());
        lemma_pow2_strictly_increases(150, 176);
        lemma_pow2_strictly_increases(176, 200);
        lemma_sum_finite(a, sum);
        lemma_over_order(a, s, s);
        let q = a.over_spec(s);
        assert(q.value() <= pow2(149)) by {
            lemma_over_itself(s);
        }
        if !q.finite() {
            lemma_finite_or_infinite(q);
        }
        lemma_rest_in_unit(q);
        let r = one.minus_spec(q);
        assert(r.finite()) by {
            lemma_negate(q);
            lemma_plus_value(one, q.negate_spec());
            if !r.finite() {
                lemma_finite_or_infinite(r);
            }
        }
    }
}

proof fn lemma_over_itself(s: Single)
    requires
        s.finite(),
        s.value() > 0,
    ensures
        s.over_spec(s).value() == pow2(149),
{
    reveal(Single::over_spec);
    lemma_one();
    lemma_no_units(s);
    let n = s.units() * pow2(149);
    assert(n == (1 * pow2(149)) * s.units()) by (nonlinear_arith)
        requires
            n == s.units() * pow2(149),
    ;
    lemma_nearest_exact(n, s.units(), 1, 149);
}

/// A sum of bounded numbers is finite.
pub proof fn lemma_sum_finite(a: Single, b: Single)
    requires
        below(a, 150),
        below(b, 176),
    ensures
        below(a.plus_spec(b), 177),
{
    lemma_plus_value(a, b);
    lemma_pow2_unfold(177);
    lemma_pow2_strictly_increases(150, 176);
    lemma_nearest_exact((1 * pow2(177)) * 1, 1, 1, 177);
    assert(rounded(pow2(177) as int) == pow2(177));
    lemma_rounded_monotone(0, a.value() + b.value());
    lemma_rounded_monotone(a.value() + b.value(), pow2(177) as int);
    let s = a.plus_spec(b);
    if !s.finite() {
        lemma_finite_or_infinite(s);
        lemma_pow2_strictly_increases(177, 277);
    }
}

/// Sums and reflectances that are far from overflow.
pub open spec fn bounded(v: Pickup) -> bool {
    &&& v.bands.len() == 10
    &&& forall|i: int| 0 <= i < 10 ==> (#[trigger] v.bands[i]).bits <= BOUND
    &&& below(v.weight, 176)
    &&& below(v.alpha, 176)
    &&& v.rgb.len() == 3
    &&& below(v.rgb[0], 191)
    &&& below(v.rgb[1], 191)
    &&& below(v.rgb[2], 191)
}

/// A share of a bounded number is bounded.
proof fn lemma_share_below(v: Single, share: Single, k: nat)
    requires
        below(v, k),
        below(share, 149),
        k <= 250,
    ensures
        below(v.times_spec(share), k),
{
    let one = Single { bits: ONE };
    let x = v.times_spec(share);
    lemma_one();
    lemma_infinity_units();
    lemma_share_order(v, share, one);
    law_times_one(v);
    if !x.finite() {
        lemma_finite_or_infinite(x);
        lemma_pow2_strictly_increases(k, 277);
    }
}

/// A bounded number divided by an integer above zero is bounded.
proof fn lemma_part_below(x: Single, alpha: int, k: nat)
    requires
        below(x, k),
        0 < alpha <= 65535,
    ensures
        below(x.over_spec(Single::of(alpha)), k),
{
    let a = Single::of(alpha);
    let u = pow2(149);
    lemma_of_exact(alpha as nat);
    lemma_one();
    lemma_magnitude_zero();
    lemma_infinity_units();
    assert(a.units() >= u) by (nonlinear_arith)
        requires
            a.units() == alpha * u,
            alpha > 0,
            u > 0,
    ;
    lemma_over_order(x, x, a);
    let q = x.over_spec(a);
    lemma_no_units(a);
    assert(x.units() * u <= x.units() * a.units()) by (nonlinear_arith)
        requires
            u <= a.units(),
            x.units() >= 0,
    ;
    assert(q.units() <= x.units() && q.mag() <= x.mag()) by {
        reveal(Single::over_spec);
        lemma_nearest_at_most(x.units() * u, a.units(), x.mag());
    }
}

/// One channel of the running average.
proof fn lemma_average(c: int, alpha: int, v: Single, fa: Single, fb: Single)
    requires
        0 <= c <= 65535,
        0 < alpha <= 65535,
        below(v, 191),
        below(fa, 149),
        below(fb, 149),
    ensures
        below(
            Single::of(c).times_spec(fa).over_spec(Single::of(alpha)).plus_spec(v.times_spec(fb)),
            191,
        ),
{
    lemma_of_exact(c as nat);
    lemma_pow2_adds(16, 149);
    assert(pow2(16) == 65536) by {
        lemma2_to64();
    }
    lemma_pow2_pos(149);
    assert(0 <= c * pow2(149) <= 65536 * pow2(149)) by (nonlinear_arith)
        requires
            0 <= c <= 65535,
            pow2(149) > 0,
    ;
    let t = Single::of(c).times_spec(fa);
    lemma_share_below(Single::of(c), fa, 165);
    lemma_part_below(t, alpha, 165);
    lemma_share_below(v, fb, 191);
    let x = t.over_spec(Single::of(alpha));
    let y = v.times_spec(fb);
    lemma_sum_stays(y, x, 191, 165);
    lemma_plus_commutes(x, y);
}

/// A pixel that is covered and has alpha weighs something.
pub proof fn lemma_some_alpha(mask: int, alpha: int)
    requires
        0 < mask <= 32768,
        0 < alpha <= 65535,
    ensures
        weighed_alpha(mask, alpha).value() > 0,
{
    let u = pow2(149);
    let m = Single::of(mask);
    let a = Single::of(alpha);
    let x = m.times_spec(a);
    let k = Single { bits: FULL_SQUARED };
    let r = weighed_alpha(mask, alpha);
    lemma_weighed_alpha(mask, alpha);
    lemma_of_exact(mask as nat);
    lemma_of_exact(alpha as nat);
    lemma_weighing();
    lemma_one();
    lemma_infinity_units();
    lemma_no_units(k);
    assert(m.units() * a.units() >= u * u) by (nonlinear_arith)
        requires
            m.units() == mask * u,
            a.units() == alpha * u,
            mask > 0,
            alpha > 0,
            u > 0,
    ;
    assert(!x.nan() && !x.negative() && x.units() >= u) by {
        reveal(Single::times_spec);
        lemma_nearest_at_least(m.units() * a.units(), u, ONE as nat);
    }
    if x.finite() {
        let least = Single { bits: 0x3080_0000 };
        lemma_known(0x3080_0000, 0x80_0000, 96);
        lemma_pow2_adds(23, 96);
        lemma_pow2_adds(119, 179);
        lemma_pow2_adds(149, 149);
        assert(pow2(23) == 0x80_0000) by {
            lemma2_to64();
        }
        lemma_pow2_pos(119);
        assert(x.units() * u >= u * u) by (nonlinear_arith)
            requires
                x.units() >= u,
                u > 0,
        ;
        reveal(Single::over_spec);
        lemma_nearest_at_least(x.units() * u, k.units(), 0x3080_0000);
    } else {
        reveal(Single::over_spec);
    }
}

/// A channel of a pixel, straight.
pub proof fn lemma_straight(c: int, alpha: int)
    requires
        0 <= c <= 65535,
        0 < alpha <= 65535,
    ensures
        within(Single::of(c).over_spec(Single::of(alpha)), 165),
{
    let x = Single::of(c);
    let a = Single::of(alpha);
    lemma_of_exact(c as nat);
    lemma_of_exact(alpha as nat);
    lemma_pow2_adds(16, 149);
    assert(pow2(16) == 65536) by {
        lemma2_to64();
    }
    lemma_one();
    assert(0 <= c * pow2(149) <= 65536 * pow2(149)) by (nonlinear_arith)
        requires
            0 <= c <= 65535,
            pow2(149) > 0,
    ;
    lemma_part_below(x, alpha, 165);
    assert(!x.over_spec(a).negative()) by {
        reveal(Single::over_spec);
    }
}

/// One more pixel keeps the reflectances bounded.
proof fn lemma_picked_bands(
    v: Pickup,
    mask: int,
    r: int,
    g: int,
    b: int,
    alpha: int,
    paint: Single,
)
    requires
        bounded(v),
        0 < mask <= 32768,
        0 <= r <= 65535,
        0 <= g <= 65535,
        0 <= b <= 65535,
        0 <= alpha <= 65535,
    ensures
        ({
            let bands = picked(v, mask, r, g, b, alpha, paint).bands;
            bands.len() == 10 && forall|i: int|
                0 <= i < 10 ==> (#[trigger] bands[i]).bits <= BOUND
        }),
{
    if (Single { bits: 0 }).lt_spec(paint) && alpha > 0 {
        let a = weighed_alpha(mask, alpha);
        let fa = new_share(a, v.alpha);
        let pa = Single::of(alpha);
        let (x, y, z) = (
            Single::of(r).over_spec(pa),
            Single::of(g).over_spec(pa),
            Single::of(b).over_spec(pa),
        );
        let bands = picked(v, mask, r, g, b, alpha, paint).bands;
        lemma_weighed_alpha(mask, alpha);
        lemma_some_alpha(mask, alpha);
        lemma_one();
        lemma_plus_at_least(a, v.alpha, a);
        assert((Single { bits: 0 }).lt_spec(a.plus_spec(v.alpha)));
        lemma_shares(a, v.alpha);
        lemma_straight(r, alpha);
        lemma_straight(g, alpha);
        lemma_straight(b, alpha);
        assert forall|i: int| 0 <= i < 10 implies (#[trigger] bands[i]).bits <= BOUND by {
            lemma_spectrum_within(x, y, z, i);
            lemma_mixing_stays(spectrum(x, y, z)[i], v.bands[i], fa);
        }
    }
}

/// One more pixel keeps the sums bounded.
proof fn lemma_picked(v: Pickup, mask: int, r: int, g: int, b: int, alpha: int, paint: Single)
    requires
        bounded(v),
        0 < mask <= 32768,
        0 <= r <= 65535,
        0 <= g <= 65535,
        0 <= b <= 65535,
        0 <= alpha <= 65535,
    ensures
        bounded(picked(v, mask, r, g, b, alpha, paint)),
{
    let a = weighed_alpha(mask, alpha);
    lemma_picked_bands(v, mask, r, g, b, alpha, paint);
    lemma_weight(mask);
    lemma_weighed_alpha(mask, alpha);
    lemma_pow2_strictly_increases(149, 150);
    lemma_sum_stays(v.weight, Single::of(mask).over_spec(Single { bits: FULL }), 176, 150);
    lemma_sum_stays(v.alpha, a, 176, 150);
    if alpha > 0 {
        let fa = new_share(a, v.alpha);
        let fb = old_share(a, v.alpha);
        lemma_shares(a, v.alpha);
        lemma_average(r, alpha, v.rgb[0], fa, fb);
        lemma_average(g, alpha, v.rgb[1], fa, fb);
        lemma_average(b, alpha, v.rgb[2], fa, fb);
    }
}

/// What is listed of a spot is covered, and at most fully.
proof fn lemma_listed(shape: Shape, fringe: Single, n: nat)
    requires
        shape.wf(),
        n <= 4096,
    ensures
        forall|i: int|
            0 <= i < listed(shape, fringe, n).len() ==> 0 < (#[trigger] listed(
                shape,
                fringe,
                n,
            )[i]).2 <= 32768,
    decreases n,
{
    if n > 0 {
        lemma_listed(shape, fringe, (n - 1) as nat);
        let x = (n - 1) % 64;
        let y = (n - 1) / 64;
        law_coverage_is_at_most_one(shape, x as i32, y as i32);
        let m = mask_at(shape, fringe, x, y);
        assert(m <= 32768);
        let before = listed(shape, fringe, (n - 1) as nat);
        let after = listed(shape, fringe, n);
        assert forall|i: int| 0 <= i < after.len() implies 0 < (#[trigger] after[i]).2 <= 32768 by {
            if i < before.len() {
                assert(after[i] == before[i]);
            }
        }
    }
}

proof fn lemma_spot_mask(x: Single, y: Single, radius: Single, tx: int, ty: int)
    ensures
        forall|i: int|
            0 <= i < spot_mask(x, y, radius, tx, ty).len() ==> 0 < (#[trigger] spot_mask(
                x,
                y,
                radius,
                tx,
                ty,
            )[i]).2 <= 32768,
{
    lemma_inverse_square_has_no_sign(radius);
    lemma_listed(
        spot(x, y, radius, tx, ty),
        radius.plus_spec(Single { bits: ONE }),
        4096,
    );
}

proof fn lemma_tile_bounded(
    s: Scan,
    entries: Seq<MaskEntry>,
    tile: Option<TilePixels>,
    t: Thinning,
    n: nat,
)
    requires
        bounded(s.pickup),
        n <= entries.len(),
        forall|i: int| 0 <= i < entries.len() ==> 0 < (#[trigger] entries[i]).2 <= 32768,
    ensures
        bounded(tile_scan(s, entries, tile, t, n).pickup),
    decreases n,
{
    if n > 0 {
        lemma_tile_bounded(s, entries, tile, t, (n - 1) as nat);
        let before = tile_scan(s, entries, tile, t, (n - 1) as nat);
        let e = entries[n - 1];
        let (x, y) = (e.0 as int, e.1 as int);
        lemma_picked(
            before.pickup,
            e.2 as int,
            tile_pixel(tile, x, y, 0),
            tile_pixel(tile, x, y, 1),
            tile_pixel(tile, x, y, 2),
            tile_pixel(tile, x, y, 3),
            t.paint,
        );
    }
}

proof fn lemma_canvas_bounded(
    s: Scan,
    tiles: Map<(i32, i32), TilePixels>,
    x: Single,
    y: Single,
    radius: Single,
    t: Thinning,
    range: TileRange,
    n: nat,
)
    requires
        bounded(s.pickup),
    ensures
        bounded(canvas_scan(s, tiles, x, y, radius, t, range, n).pickup),
    decreases n,
{
    if n > 0 {
        lemma_canvas_bounded(s, tiles, x, y, radius, t, range, (n - 1) as nat);
        let tx = nth_tx(range, n - 1);
        let ty = nth_ty(range, n - 1);
        let entries = spot_mask(x, y, radius, tx, ty);
        lemma_spot_mask(x, y, radius, tx, ty);
        lemma_tile_bounded(
            canvas_scan(s, tiles, x, y, radius, t, range, (n - 1) as nat),
            entries,
            tile_at(tiles, tx as i32, ty as i32),
            t,
            entries.len(),
        );
    }
}

/// What was picked up in a spot is far from overflow.
proof fn lemma_spot_bounded(
    tiles: Map<(i32, i32), TilePixels>,
    x: Single,
    y: Single,
    radius: Single,
    paint: Single,
    rng: SampleRng,
)
    ensures
        bounded(spot_scan(tiles, x, y, radius, paint, rng).pickup),
{
    let r = sample_radius(radius);
    let range = spot_range(x, y, r);
    lemma_one();
    lemma_pow2_pos(176);
    lemma_pow2_pos(191);
    lemma_pow2_pos(165);
    let zero = Single { bits: 0 };
    assert forall|i: int| 0 <= i < 10 implies (#[trigger] nothing().bands[i]).bits <= BOUND by {
        lemma_spectrum_within(zero, zero, zero, i);
    }
    lemma_canvas_bounded(
        Scan { pickup: nothing(), counter: 0, rng: rng.state as int },
        tiles,
        x,
        y,
        r,
        thinning(r, paint),
        range,
        tile_total(range) as nat,
    );
}

/// One channel of a colour between pigment and light.
proof fn lemma_mixed_channel(c: Single, paint: Single, v: Single)
    requires
        in_unit(c),
        !c.nan(),
        below(paint, 149),
        below(v, 191),
    ensures
        !unit(
            c.times_spec(paint).plus_spec(
                (Single { bits: ONE }).minus_spec(paint).times_spec(v),
            ),
        ).nan(),
{
    let one = Single { bits: ONE };
    let rest = one.minus_spec(paint);
    lemma_one();
    lemma_infinity_units();
    if !c.finite() {
        lemma_finite_or_infinite(c);
    }
    lemma_rest_in_unit(paint);
    lemma_negate(paint);
    lemma_plus_value(one, paint.negate_spec());
    if !rest.finite() {
        lemma_finite_or_infinite(rest);
    }
    lemma_share_below(c, paint, 149);
    law_times_commutes(rest, v);
    lemma_share_below(v, rest, 191);
    lemma_plus_value(c.times_spec(paint), rest.times_spec(v));
}

/// The pigments that were mixed in a spot have a colour of numbers, whatever
/// the canvas, the spot and the numbers.
pub proof fn law_mixed_pigments_are_numbers(
    tiles: Map<(i32, i32), TilePixels>,
    x: Single,
    y: Single,
    radius: Single,
    paint: Single,
    rng: SampleRng,
)
    ensures
        ({
            let mixed = seen(spot_scan(tiles, x, y, radius, paint, rng).pickup.bands);
            !mixed.0.nan() && !mixed.1.nan() && !mixed.2.nan()
        }),
{
    lemma_spot_bounded(tiles, x, y, radius, paint, rng);
    lemma_seen_is_number(spot_scan(tiles, x, y, radius, paint, rng).pickup.bands);
}

/// A colour that is picked up is made of numbers between zero and one,
/// whatever the canvas, the spot and the numbers.
pub proof fn law_picked_up_colour_is_in_range(
    tiles: Map<(i32, i32), TilePixels>,
    x: Single,
    y: Single,
    radius: Single,
    paint: Single,
    rng: SampleRng,
)
    requires
        (Single { bits: 0 }).le_spec(paint),
        paint.le_spec(Single { bits: ONE }),
    ensures
        ({
            let c = pigment_color(spot_scan(tiles, x, y, radius, paint, rng).pickup, paint);
            &&& in_unit(c.r) && !c.r.nan()
            &&& in_unit(c.g) && !c.g.nan()
            &&& in_unit(c.b) && !c.b.nan()
            &&& in_unit(c.a) && !c.a.nan()
        }),
{
    let zero = Single { bits: 0 };
    let one = Single { bits: ONE };
    let v = spot_scan(tiles, x, y, radius, paint, rng).pickup;
    lemma_spot_bounded(tiles, x, y, radius, paint, rng);
    law_mixed_pigments_are_numbers(tiles, x, y, radius, paint, rng);
    lemma_one();
    lemma_infinity_units();
    if !paint.finite() {
        lemma_finite_or_infinite(paint);
    }
    let mixed = seen(v.bands);
    lemma_seen(v.bands);
    let linear = one.minus_spec(paint);
    lemma_unit_in_unit(mixed.0.times_spec(paint).plus_spec(linear.times_spec(v.rgb[0])));
    lemma_unit_in_unit(mixed.1.times_spec(paint).plus_spec(linear.times_spec(v.rgb[1])));
    lemma_unit_in_unit(mixed.2.times_spec(paint).plus_spec(linear.times_spec(v.rgb[2])));
    lemma_mixed_channel(mixed.0, paint, v.rgb[0]);
    lemma_mixed_channel(mixed.1, paint, v.rgb[1]);
    lemma_mixed_channel(mixed.2, paint, v.rgb[2]);
    if !v.weight.le_spec(zero) {
        lemma_over_order(v.alpha, v.alpha, v.weight);
        lemma_unit_in_unit(v.alpha.over_spec(v.weight));
    }
}

/// Whether nothing is painted where a spot covers a canvas.
pub open spec fn clear_under(
    tiles: Map<(i32, i32), TilePixels>,
    x: Single,
    y: Single,
    radius: Single,
) -> bool {
    forall|tx: int, ty: int, i: int|
        0 <= i < spot_mask(x, y, radius, tx, ty).len() ==> tile_pixel(
            tile_at(tiles, tx as i32, ty as i32),
            (#[trigger] spot_mask(x, y, radius, tx, ty)[i]).0 as int,
            spot_mask(x, y, radius, tx, ty)[i].1 as int,
            3,
        ) == 0
}

proof fn lemma_tile_clear(
    s: Scan,
    entries: Seq<MaskEntry>,
    tile: Option<TilePixels>,
    t: Thinning,
    n: nat,
)
    requires
        s.pickup.alpha == (Single { bits: 0 }),
        n <= entries.len(),
        forall|i: int|
            0 <= i < entries.len() ==> (#[trigger] entries[i]).2 <= 32768 && tile_pixel(
                tile,
                entries[i].0 as int,
                entries[i].1 as int,
                3,
            ) == 0,
    ensures
        tile_scan(s, entries, tile, t, n).pickup.alpha == (Single { bits: 0 }),
    decreases n,
{
    if n > 0 {
        lemma_tile_clear(s, entries, tile, t, (n - 1) as nat);
        let e = entries[n - 1];
        lemma_no_alpha(e.2 as int);
        lemma_magnitude_zero();
        reveal(Single::plus_spec);
    }
}

proof fn lemma_canvas_clear(
    s: Scan,
    tiles: Map<(i32, i32), TilePixels>,
    x: Single,
    y: Single,
    radius: Single,
    t: Thinning,
    range: TileRange,
    n: nat,
)
    requires
        s.pickup.alpha == (Single { bits: 0 }),
        clear_under(tiles, x, y, radius),
    ensures
        canvas_scan(s, tiles, x, y, radius, t, range, n).pickup.alpha == (Single { bits: 0 }),
    decreases n,
{
    if n > 0 {
        lemma_canvas_clear(s, tiles, x, y, radius, t, range, (n - 1) as nat);
        let tx = nth_tx(range, n - 1);
        let ty = nth_ty(range, n - 1);
        let entries = spot_mask(x, y, radius, tx, ty);
        lemma_spot_mask(x, y, radius, tx, ty);
        lemma_tile_clear(
            canvas_scan(s, tiles, x, y, radius, t, range, (n - 1) as nat),
            entries,
            tile_at(tiles, tx as i32, ty as i32),
            t,
            entries.len(),
        );
    }
}

/// Where nothing is painted, what is picked up has no alpha: green, or nothing
/// at all where the spot covers no pixel.
pub proof fn law_nothing_painted_picks_up_no_alpha(
    tiles: Map<(i32, i32), TilePixels>,
    x: Single,
    y: Single,
    radius: Single,
    paint: Single,
    rng: SampleRng,
)
    requires
        clear_under(tiles, x, y, sample_radius(radius)),
    ensures
        ({
            let zero = Single { bits: 0 };
            let v = spot_scan(tiles, x, y, radius, paint, rng).pickup;
            pigment_color(v, paint) == (if v.weight.le_spec(zero) {
                RgbaF32::transparent_spec()
            } else {
                RgbaF32 { r: zero, g: Single { bits: ONE }, b: zero, a: zero }
            })
        }),
{
    let zero = Single { bits: 0 };
    let r = sample_radius(radius);
    let range = spot_range(x, y, r);
    let v = spot_scan(tiles, x, y, radius, paint, rng).pickup;
    lemma_one();
    lemma_magnitude_zero();
    lemma_canvas_clear(
        Scan { pickup: nothing(), counter: 0, rng: rng.state as int },
        tiles,
        x,
        y,
        r,
        thinning(r, paint),
        range,
        tile_total(range) as nat,
    );
    lemma_spot_bounded(tiles, x, y, radius, paint, rng);
    if !v.weight.le_spec(zero) {
        assert(zero.over_spec(v.weight) == zero) by {
            reveal(Single::over_spec);
            lemma_no_units(v.weight);
            assert(0 * pow2(149) == 0);
            lemma_nearest_at_most(0, v.weight.units(), 0);
        }
    }
}

} // verus!
