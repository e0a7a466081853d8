//! What the average colour of a spot is on canvases that say so.
use crate::color::RgbaF32;
use crate::draw::TileRange;
use crate::fix15::{fraction, lemma_fraction_is_exact};
use crate::geometry::opa_at_spec;
use crate::mask::MaskEntry;
use crate::means::lemma_same_value;
use crate::range::{lemma_nearest_at_most, lemma_no_units, lemma_one, lemma_over_order};
use crate::sampling::{
    channel_sum, color_at, color_sums, nth_tx, nth_ty, pixel_sums, sample_radius, sampled,
    spot_distance, spot_mask, spot_range, tile_at, tile_pixel, tile_total, unmultiplied, weight_sum,
    with_pixel, Sums,
};
use crate::single::{
    law_over_one, law_times_commutes, law_times_nothing, law_times_one, lemma_nearest_exact,
    lemma_of_exact, Single, HALF, ONE,
};
use crate::tile::TilePixels;
use vstd::arithmetic::power2::*;
use vstd::prelude::*;

verus! {

/// Whether channel `c` is `v` wherever a spot covers a canvas.
pub open spec fn even_under(
    tiles: Map<(i32, i32), TilePixels>,
    x: Single,
    y: Single,
    radius: Single,
    c: int,
    v: int,
) -> bool {
    forall|tx: int, ty: int, i: int|
        0 <= i < spot_mask(x, y, radius, tx, ty).len() ==> tile_pixel(
            tile_at(tiles, tx as i32, ty as i32),
            (#[trigger] spot_mask(x, y, radius, tx, ty)[i]).0 as int,
            spot_mask(x, y, radius, tx, ty)[i].1 as int,
            c,
        ) == v
}

/// Whether channel `c` of one canvas is channel `d` of another wherever a spot
/// covers them.
pub open spec fn alike_under(
    tiles: Map<(i32, i32), TilePixels>,
    c: int,
    other: Map<(i32, i32), TilePixels>,
    d: int,
    x: Single,
    y: Single,
    radius: Single,
) -> bool {
    forall|tx: int, ty: int, i: int|
        0 <= i < spot_mask(x, y, radius, tx, ty).len() ==> tile_pixel(
            tile_at(tiles, tx as i32, ty as i32),
            (#[trigger] spot_mask(x, y, radius, tx, ty)[i]).0 as int,
            spot_mask(x, y, radius, tx, ty)[i].1 as int,
            c,
        ) == tile_pixel(
            tile_at(other, tx as i32, ty as i32),
            spot_mask(x, y, radius, tx, ty)[i].0 as int,
            spot_mask(x, y, radius, tx, ty)[i].1 as int,
            d,
        )
}

/// A channel of sums.
pub open spec fn sum_of(s: Sums, c: int) -> Single {
    if c == 0 {
        s.r
    } else if c == 1 {
        s.g
    } else if c == 2 {
        s.b
    } else {
        s.a
    }
}

/// A channel of a colour.
pub open spec fn channel_of(s: RgbaF32, c: int) -> Single {
    if c == 0 {
        s.r
    } else if c == 1 {
        s.g
    } else if c == 2 {
        s.b
    } else {
        s.a
    }
}

proof fn lemma_full_tile(entries: Seq<MaskEntry>, tile: Option<TilePixels>, c: int, v: int, n: nat)
    requires
        n <= entries.len(),
        v == 0 || v == 32768,
        forall|i: int|
            0 <= i < entries.len() ==> tile_pixel(
                tile,
                (#[trigger] entries[i]).0 as int,
                entries[i].1 as int,
                c,
            ) == v,
    ensures
        channel_sum(entries, tile, c, n) == (if v == 0 {
            0
        } else {
            weight_sum(entries, n)
        }),
    decreases n,
{
    if n > 0 {
        lemma_full_tile(entries, tile, c, v, (n - 1) as nat);
        let e = entries[n - 1];
        assert(e.2 * 0 / 32768 == 0);
        assert(e.2 * 32768 / 32768 == e.2);
    }
}

proof fn lemma_alike_tile(
    entries: Seq<MaskEntry>,
    tile: Option<TilePixels>,
    c: int,
    other: Option<TilePixels>,
    d: int,
    n: nat,
)
    requires
        n <= entries.len(),
        forall|i: int|
            0 <= i < entries.len() ==> tile_pixel(
                tile,
                (#[trigger] entries[i]).0 as int,
                entries[i].1 as int,
                c,
            ) == tile_pixel(other, entries[i].0 as int, entries[i].1 as int, d),
    ensures
        channel_sum(entries, tile, c, n) == channel_sum(entries, other, d, n),
    decreases n,
{
    if n > 0 {
        lemma_alike_tile(entries, tile, c, other, d, (n - 1) as nat);
    }
}

proof fn lemma_full_sums(
    tiles: Map<(i32, i32), TilePixels>,
    x: Single,
    y: Single,
    radius: Single,
    range: TileRange,
    c: int,
    v: int,
    n: nat,
)
    requires
        0 <= c < 4,
        v == 0 || v == 32768,
        even_under(tiles, x, y, radius, c, v),
    ensures
        ({
            let s = color_sums(tiles, x, y, radius, range, n);
            &&& v == 32768 ==> sum_of(s, c) == s.weight
            &&& v == 0 ==> sum_of(s, c) == (Single { bits: 0 })
        }),
    decreases n,
{
    if n > 0 {
        lemma_full_sums(tiles, x, y, radius, range, c, v, (n - 1) as nat);
        let tx = nth_tx(range, n - 1);
        let ty = nth_ty(range, n - 1);
        let entries = spot_mask(x, y, radius, tx, ty);
        lemma_full_tile(entries, tile_at(tiles, tx as i32, ty as i32), c, v, entries.len());
        if v == 0 {
            lemma_nothing_added();
        }
    }
}

proof fn lemma_nothing_added()
    ensures
        (Single { bits: 0 }).plus_spec(Single::of(0)) == (Single { bits: 0 }),
{
    lemma_one();
    lemma_of_exact(0);
    lemma_no_units(Single::of(0));
    assert(0 * pow2(149) == 0);
    reveal(Single::plus_spec);
}

proof fn lemma_alike_sums(
    tiles: Map<(i32, i32), TilePixels>,
    c: int,
    other: Map<(i32, i32), TilePixels>,
    d: int,
    x: Single,
    y: Single,
    radius: Single,
    range: TileRange,
    n: nat,
)
    requires
        0 <= c < 4,
        0 <= d < 4,
        alike_under(tiles, c, other, d, x, y, radius),
    ensures
        sum_of(color_sums(tiles, x, y, radius, range, n), c) == sum_of(
            color_sums(other, x, y, radius, range, n),
            d,
        ),
        color_sums(tiles, x, y, radius, range, n).weight == color_sums(
            other,
            x,
            y,
            radius,
            range,
            n,
        ).weight,
    decreases n,
{
    if n > 0 {
        lemma_alike_sums(tiles, c, other, d, x, y, radius, range, (n - 1) as nat);
        let tx = nth_tx(range, n - 1);
        let ty = nth_ty(range, n - 1);
        let entries = spot_mask(x, y, radius, tx, ty);
        lemma_alike_tile(
            entries,
            tile_at(tiles, tx as i32, ty as i32),
            c,
            tile_at(other, tx as i32, ty as i32),
            d,
            entries.len(),
        );
    }
}

/// Each channel of the colour of a spot comes from that channel of the canvas
/// and from alpha, and from nothing else: where a channel of one canvas is a
/// channel of another, and their alphas agree, so do these channels of their
/// colours.
pub proof fn law_channels_are_averaged_alike(
    tiles: Map<(i32, i32), TilePixels>,
    c: int,
    other: Map<(i32, i32), TilePixels>,
    d: int,
    x: Single,
    y: Single,
    radius: Single,
)
    requires
        0 <= c < 3,
        0 <= d < 3,
        alike_under(tiles, c, other, d, x, y, sample_radius(radius)),
        alike_under(tiles, 3, other, 3, x, y, sample_radius(radius)),
    ensures
        ({
            let (p, q) = (color_at(tiles, x, y, radius), color_at(other, x, y, radius));
            &&& p.a == q.a
            &&& (Single { bits: 0 }).lt_spec(p.a) ==> channel_of(p, c) == channel_of(q, d)
        }),
{
    let r = sample_radius(radius);
    let range = spot_range(x, y, r);
    let n = tile_total(range) as nat;
    lemma_one();
    lemma_alike_sums(tiles, c, other, d, x, y, r, range, n);
    lemma_alike_sums(tiles, 3, other, 3, x, y, r, range, n);
}

/// Whether a spot covers anything.
pub open spec fn covers_something(
    tiles: Map<(i32, i32), TilePixels>,
    x: Single,
    y: Single,
    radius: Single,
) -> bool {
    let r = sample_radius(radius);
    let range = spot_range(x, y, r);
    let w = color_sums(tiles, x, y, r, range, tile_total(range) as nat).weight;
    w.finite() && w.value() > 0
}

/// On an opaque canvas the colour of a spot is opaque, and a channel that is
/// full or empty everywhere is so in the colour.
pub proof fn law_opaque_canvas_has_its_colour(
    tiles: Map<(i32, i32), TilePixels>,
    x: Single,
    y: Single,
    radius: Single,
    c: int,
    v: int,
)
    requires
        0 <= c < 3,
        v == 0 || v == 32768,
        even_under(tiles, x, y, sample_radius(radius), 3, 32768),
        even_under(tiles, x, y, sample_radius(radius), c, v),
        covers_something(tiles, x, y, radius),
    ensures
        color_at(tiles, x, y, radius).a == (Single { bits: ONE }),
        channel_of(color_at(tiles, x, y, radius), c).value() == (if v == 0 {
            0
        } else {
            pow2(149) as int
        }),
{
    let r = sample_radius(radius);
    let range = spot_range(x, y, r);
    let n = tile_total(range) as nat;
    let one = Single { bits: ONE };
    let zero = Single { bits: 0 };
    let s = color_sums(tiles, x, y, r, range, n);
    lemma_one();
    lemma_full_sums(tiles, x, y, r, range, 3, 32768, n);
    lemma_full_sums(tiles, x, y, r, range, c, v, n);
    lemma_over_itself(s.weight);
    if v == 32768 {
        law_over_one(one);
    } else {
        lemma_over_order(zero, zero, s.weight);
        assert(zero.over_spec(s.weight).value() == 0) by {
            lemma_no_units(s.weight);
            assert(0 * pow2(149) == 0);
            lemma_nearest_at_most(0, s.weight.units(), 0);
            reveal(Single::over_spec);
        }
        law_over_one(zero.over_spec(s.weight));
    }
}

proof fn lemma_over_itself(w: Single)
    requires
        w.finite(),
        w.value() > 0,
    ensures
        w.over_spec(w) == (Single { bits: ONE }),
{
    lemma_one();
    lemma_no_units(w);
    reveal(Single::over_spec);
    let n = w.units() * pow2(149);
    assert(n == (1 * pow2(149)) * w.units()) by (nonlinear_arith)
        requires
            n == w.units() * pow2(149),
    ;
    lemma_nearest_exact(n, w.units(), 1, 149);
    lemma_same_value(w.over_spec(w), Single { bits: ONE });
}

/// A channel of a pixel that is full or empty adds all of its weight or none.
proof fn lemma_full_pixel(sums: Sums, p: [u16; 4], rr: Single, c: int, v: u16)
    requires
        0 <= c < 4,
        p@[c] == v,
        v == 0 || v == 32768,
        !opa_at_spec(rr, Single { bits: HALF }).nan(),
        opa_at_spec(rr, Single { bits: HALF }).finite(),
    ensures
        ({
            let after = with_pixel(sums, p, rr);
            &&& v == 32768 && sum_of(sums, c) == sums.weight ==> sum_of(after, c) == after.weight
            &&& v == 0 && sum_of(sums, c) == (Single { bits: 0 }) ==> sum_of(after, c).value() == 0
                && sum_of(after, c).finite() && (sum_of(after, c) == (Single { bits: 0 }))
        }),
{
    let one = Single { bits: ONE };
    let zero = Single { bits: 0 };
    let w = opa_at_spec(rr, Single { bits: HALF });
    lemma_one();
    lemma_fraction_is_exact(v);
    if v == 32768 {
        assert(fraction(v) == one) by {
            lemma_pow2_adds(15, 134);
            assert(pow2(15) == 32768) by {
                lemma2_to64();
            }
            lemma_same_value(fraction(v), one);
        }
        law_times_commutes(one, w);
        law_times_one(w);
    } else {
        assert(0 * pow2(134) == 0);
        lemma_no_units(fraction(v));
        law_times_nothing(fraction(v), w);
        let t = fraction(v).times_spec(w);
        lemma_no_units(t);
        reveal(Single::plus_spec);
    }
}

proof fn lemma_full_pixels<F: Fn(i32, i32) -> [u16; 4]>(
    f: F,
    x: Single,
    y: Single,
    inv_r2: Single,
    pixels: TileRange,
    c: int,
    v: u16,
    n: nat,
)
    requires
        0 <= c < 4,
        v == 0 || v == 32768,
        forall|px: i32, py: i32| #[trigger] sampled(f, px, py)@[c] == v,
        forall|px: i32, py: i32|
            opa_at_spec(
                #[trigger] spot_distance(px, py, x, y, inv_r2),
                Single { bits: HALF },
            ).finite(),
    ensures
        ({
            let s = pixel_sums(f, x, y, inv_r2, pixels, n);
            &&& v == 32768 ==> sum_of(s, c) == s.weight
            &&& v == 0 ==> sum_of(s, c) == (Single { bits: 0 })
        }),
    decreases n,
{
    if n > 0 {
        lemma_full_pixels(f, x, y, inv_r2, pixels, c, v, (n - 1) as nat);
        let px = nth_tx(pixels, n - 1) as i32;
        let py = nth_ty(pixels, n - 1) as i32;
        let p = sampled(f, px, py);
        assert(p@[c] == v);
        lemma_full_pixel(
            pixel_sums(f, x, y, inv_r2, pixels, (n - 1) as nat),
            p,
            spot_distance(px, py, x, y, inv_r2),
            c,
            v,
        );
    }
}

/// Whatever is read by a sampler: where every pixel is opaque the colour of a
/// spot is opaque, and a channel that is full or empty in every pixel is so in
/// the colour.
pub proof fn law_opaque_samples_have_their_colour<F: Fn(i32, i32) -> [u16; 4]>(
    f: F,
    x: Single,
    y: Single,
    inv_r2: Single,
    pixels: TileRange,
    n: nat,
    c: int,
    v: u16,
)
    requires
        0 <= c < 3,
        v == 0 || v == 32768,
        forall|px: i32, py: i32| #[trigger] sampled(f, px, py)@[c] == v,
        forall|px: i32, py: i32| #[trigger] sampled(f, px, py)@[3] == 32768,
        forall|px: i32, py: i32|
            opa_at_spec(
                #[trigger] spot_distance(px, py, x, y, inv_r2),
                Single { bits: HALF },
            ).finite(),
        pixel_sums(f, x, y, inv_r2, pixels, n).weight.finite(),
        pixel_sums(f, x, y, inv_r2, pixels, n).weight.value() > 0,
    ensures
        ({
            let colour = unmultiplied(pixel_sums(f, x, y, inv_r2, pixels, n));
            &&& colour.a == (Single { bits: ONE })
            &&& channel_of(colour, c).value() == (if v == 0 {
                0
            } else {
                pow2(149) as int
            })
        }),
{
    let s = pixel_sums(f, x, y, inv_r2, pixels, n);
    let zero = Single { bits: 0 };
    lemma_one();
    lemma_full_pixels(f, x, y, inv_r2, pixels, 3, 32768, n);
    lemma_full_pixels(f, x, y, inv_r2, pixels, c, v, n);
    lemma_over_itself(s.weight);
    if v == 0 {
        lemma_over_order(zero, zero, s.weight);
        assert(zero.over_spec(s.weight).value() == 0) by {
            lemma_no_units(s.weight);
            assert(0 * pow2(149) == 0);
            lemma_nearest_at_most(0, s.weight.units(), 0);
            reveal(Single::over_spec);
        }
    }
}

} // verus!
