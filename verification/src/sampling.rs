//! Picking up colour from a canvas.
use crate::color::{to_unit, unit, RgbaF32};
use crate::draw::{
    cut_start, cut_start_of, lemma_inverse_square_has_no_sign, local, tile_range, tiles_around,
    TileRange,
};
use crate::fix15::{fraction, to_f32};
use crate::geometry::{opa_at, opa_at_spec, rr_at, rr_at_spec, Ellipse, Shape};
use crate::mask::{collect_dab_mask, mask_list, MaskEntry};
use crate::range::{
    lemma_finite_or_infinite, lemma_nearest_at_most, lemma_no_units, lemma_one,
    lemma_plus_non_negative, lemma_plus_value,
};
use crate::single::{
    law_plus_nothing, lemma_infinity_units, lemma_magnitude_zero, lemma_of_exact, Single, HALF, ONE,
};
use crate::surface::{visible, TiledSurface};
use crate::tile::{pixel, TilePixels};
use vstd::arithmetic::div_mod::*;
use vstd::arithmetic::power2::*;
use vstd::prelude::*;

verus! {

/// A round spot of hardness one half, as tile `(tx, ty)` sees it.
pub open spec fn spot(x: Single, y: Single, radius: Single, tx: int, ty: int) -> Shape {
    let one = Single { bits: ONE };
    Shape {
        x: local(x, tx),
        y: local(y, ty),
        hardness: Single { bits: HALF },
        ellipse: Ellipse { aspect: one, cs: one, sn: Single { bits: 0 } },
        inv_r2: one.over_spec(radius.times_spec(radius)),
        r_aa_start: cut_start(radius, one),
        edge: one,
    }
}

/// The pixels of tile `(tx, ty)` that a spot covers.
pub open spec fn spot_mask(
    x: Single,
    y: Single,
    radius: Single,
    tx: int,
    ty: int,
) -> Seq<MaskEntry> {
    mask_list(spot(x, y, radius, tx, ty), radius.plus_spec(Single { bits: ONE }))
}

/// Lists the pixels of a tile that a spot covers, row by row.
pub fn for_each_mask_pixel(x: Single, y: Single, radius: Single, tx: i32, ty: i32) -> (entries: Vec<
    MaskEntry,
>)
    requires
        -0x200_0000 <= tx <= 0x1ff_ffff,
        -0x200_0000 <= ty <= 0x1ff_ffff,
    ensures
        entries@ == spot_mask(x, y, radius, tx as int, ty as int),
        entries@.len() <= 4096,
        forall|i: int|
            0 <= i < entries@.len() ==> (#[trigger] entries@[i]).0 < 64 && entries@[i].1 < 64
                && 0 < entries@[i].2 <= 32768,
{
    let one = Single { bits: ONE };
    proof {
        lemma_inverse_square_has_no_sign(radius);
    }
    let shape = Shape {
        x: x.minus(Single::from_i32(tx * 64)),
        y: y.minus(Single::from_i32(ty * 64)),
        hardness: Single { bits: HALF },
        ellipse: Ellipse { aspect: one, cs: one, sn: Single { bits: 0 } },
        inv_r2: one.over(radius.times(radius)),
        r_aa_start: cut_start_of(radius, one),
        edge: one,
    };
    let fringe = radius.plus(one);
    let entries: Vec<MaskEntry> = collect_dab_mask(shape, fringe);
    proof {
        lemma_listed_len(shape, fringe, 4096);
    }
    entries
}

proof fn lemma_listed_len(shape: Shape, fringe: Single, n: nat)
    ensures
        crate::mask::listed(shape, fringe, n).len() <= n,
    decreases n,
{
    if n > 0 {
        lemma_listed_len(shape, fringe, (n - 1) as nat);
    }
}

/// A pixel of a tile that may be missing.
pub open spec fn tile_pixel(tile: Option<TilePixels>, x: int, y: int, c: int) -> int {
    match tile {
        Some(t) => pixel(t, x, y)@[c] as int,
        None => 0,
    }
}

/// The tile at `(tx, ty)`, if there is one.
pub open spec fn tile_at(tiles: Map<(i32, i32), TilePixels>, tx: i32, ty: i32) -> Option<
    TilePixels,
> {
    if tiles.contains_key((tx, ty)) {
        Some(tiles[(tx, ty)])
    } else {
        None
    }
}

/// The coverage of the first `n` entries.
pub open spec fn weight_sum(entries: Seq<MaskEntry>, n: nat) -> int
    decreases n,
{
    if n == 0 {
        0
    } else {
        weight_sum(entries, (n - 1) as nat) + entries[n - 1].2
    }
}

/// Channel `c` of a tile, weighed by the first `n` entries and cut to an
/// integer at each.
pub open spec fn channel_sum(
    entries: Seq<MaskEntry>,
    tile: Option<TilePixels>,
    c: int,
    n: nat,
) -> int
    decreases n,
{
    if n == 0 {
        0
    } else {
        let e = entries[n - 1];
        channel_sum(entries, tile, c, (n - 1) as nat) + e.2 * tile_pixel(
            tile,
            e.0 as int,
            e.1 as int,
            c,
        ) / 32768
    }
}

/// Sums over tiles.
#[derive(Clone, Copy, Debug, PartialEq, Eq, Structural)]
pub struct Sums {
    pub weight: Single,
    pub r: Single,
    pub g: Single,
    pub b: Single,
    pub a: Single,
}

impl Sums {
    pub open spec fn zero() -> Sums {
        Sums {
            weight: Single { bits: 0 },
            r: Single { bits: 0 },
            g: Single { bits: 0 },
            b: Single { bits: 0 },
            a: Single { bits: 0 },
        }
    }
}

/// Sums with one more tile.
pub open spec fn with_tile(sums: Sums, entries: Seq<MaskEntry>, tile: Option<TilePixels>) -> Sums {
    let n = entries.len();
    Sums {
        weight: sums.weight.plus_spec(Single::of(weight_sum(entries, n))),
        r: sums.r.plus_spec(Single::of(channel_sum(entries, tile, 0, n))),
        g: sums.g.plus_spec(Single::of(channel_sum(entries, tile, 1, n))),
        b: sums.b.plus_spec(Single::of(channel_sum(entries, tile, 2, n))),
        a: sums.a.plus_spec(Single::of(channel_sum(entries, tile, 3, n))),
    }
}

proof fn lemma_term(m: int, p: int)
    requires
        0 <= m <= 32768,
        0 <= p <= 65535,
    ensures
        0 <= m * p <= 32768 * 65535,
        0 <= m * p / 32768 <= 65535,
{
    assert(0 <= m * p <= 32768 * 65535) by (nonlinear_arith)
        requires
            0 <= m <= 32768,
            0 <= p <= 65535,
    ;
}

/// Adds one tile to the sums.
fn add_tile(sums: Sums, entries: &Vec<MaskEntry>, tile: Option<&TilePixels>) -> (r: Sums)
    requires
        entries@.len() <= 4096,
        forall|i: int|
            0 <= i < entries@.len() ==> (#[trigger] entries@[i]).0 < 64 && entries@[i].1 < 64
                && entries@[i].2 <= 32768,
    ensures
        r == with_tile(
            sums,
            entries@,
            match tile {
                Some(t) => Some(*t),
                None => None,
            },
        ),
{
    let ghost there: Option<TilePixels> = match tile {
        Some(t) => Some(*t),
        None => None,
    };
    let mut weight: u32 = 0;
    let mut r: u32 = 0;
    let mut g: u32 = 0;
    let mut b: u32 = 0;
    let mut a: u32 = 0;
    let mut i: usize = 0;
    while i < entries.len()
        invariant
            i <= entries@.len() <= 4096,
            forall|j: int|
                0 <= j < entries@.len() ==> (#[trigger] entries@[j]).0 < 64 && entries@[j].1 < 64
                    && entries@[j].2 <= 32768,
            there == (match tile {
                Some(t) => Some(*t),
                None => None,
            }),
            weight == weight_sum(entries@, i as nat),
            r == channel_sum(entries@, there, 0, i as nat),
            g == channel_sum(entries@, there, 1, i as nat),
            b == channel_sum(entries@, there, 2, i as nat),
            a == channel_sum(entries@, there, 3, i as nat),
            weight <= 32768 * i,
            r <= 65535 * i,
            g <= 65535 * i,
            b <= 65535 * i,
            a <= 65535 * i,
        decreases entries@.len() - i,
    {
        let (lx, ly, mask): MaskEntry = entries[i];
        weight = weight + mask;
        match tile {
            Some(t) => {
                let p: [u16; 4] = t[ly][lx];
                proof {
                    assert(p == pixel(*t, lx as int, ly as int));
                    lemma_term(mask as int, p@[0] as int);
                    lemma_term(mask as int, p@[1] as int);
                    lemma_term(mask as int, p@[2] as int);
                    lemma_term(mask as int, p@[3] as int);
                }
                r = r + mask * p[0] as u32 / 32768;
                g = g + mask * p[1] as u32 / 32768;
                b = b + mask * p[2] as u32 / 32768;
                a = a + mask * p[3] as u32 / 32768;
            },
            None => {
                assert(mask * 0int == 0);
            },
        }
        i += 1;
    }
    Sums {
        weight: sums.weight.plus(Single::from_u32(weight)),
        r: sums.r.plus(Single::from_u32(r)),
        g: sums.g.plus(Single::from_u32(g)),
        b: sums.b.plus(Single::from_u32(b)),
        a: sums.a.plus(Single::from_u32(a)),
    }
}

/// How many tiles a row of a range has.
pub open spec fn columns(range: TileRange) -> int {
    range.tx1 - range.tx0 + 1
}

/// How many tiles a range has.
pub open spec fn tile_total(range: TileRange) -> int {
    if range.tx1 < range.tx0 || range.ty1 < range.ty0 {
        0
    } else {
        columns(range) * (range.ty1 - range.ty0 + 1)
    }
}

/// The column of the tile with number `n`, counted row by row.
pub open spec fn nth_tx(range: TileRange, n: int) -> int {
    range.tx0 + n % columns(range)
}

/// The row of the tile with number `n`.
pub open spec fn nth_ty(range: TileRange, n: int) -> int {
    range.ty0 + n / columns(range)
}

/// The number of tile `(tx, ty)`.
pub open spec fn tile_number(range: TileRange, tx: int, ty: int) -> int {
    (ty - range.ty0) * columns(range) + (tx - range.tx0)
}

pub proof fn lemma_tile_number(range: TileRange, tx: int, ty: int)
    requires
        range.tx0 <= tx <= range.tx1,
        range.ty0 <= ty,
    ensures
        tile_number(range, tx, ty) >= 0,
        nth_tx(range, tile_number(range, tx, ty)) == tx,
        nth_ty(range, tile_number(range, tx, ty)) == ty,
{
    let w = columns(range);
    assert((ty - range.ty0) * w >= 0) by (nonlinear_arith)
        requires
            ty - range.ty0 >= 0,
            w > 0,
    ;
    lemma_fundamental_div_mod_converse(
        tile_number(range, tx, ty),
        w,
        ty - range.ty0,
        tx - range.tx0,
    );
}

pub proof fn lemma_next_row(range: TileRange, ty: int)
    ensures
        tile_number(range, range.tx1 + 1, ty) == tile_number(range, range.tx0 as int, ty + 1),
{
    let w = columns(range);
    assert((ty - range.ty0) * w + w == (ty + 1 - range.ty0) * w) by (nonlinear_arith);
}

/// The sums over the first `n` tiles of a range.
pub open spec fn color_sums(
    tiles: Map<(i32, i32), TilePixels>,
    x: Single,
    y: Single,
    radius: Single,
    range: TileRange,
    n: nat,
) -> Sums
    decreases n,
{
    if n == 0 {
        Sums::zero()
    } else {
        let tx = nth_tx(range, n - 1);
        let ty = nth_ty(range, n - 1);
        with_tile(
            color_sums(tiles, x, y, radius, range, (n - 1) as nat),
            spot_mask(x, y, radius, tx, ty),
            tile_at(tiles, tx as i32, ty as i32),
        )
    }
}

/// The straight-alpha colour of sums over premultiplied pixels; green where
/// everything is transparent, nothing where nothing was covered.
pub open spec fn averaged(sums: Sums) -> RgbaF32 {
    let zero = Single { bits: 0 };
    if sums.weight.le_spec(zero) {
        RgbaF32::transparent_spec()
    } else {
        let a = sums.a.over_spec(sums.weight);
        if zero.lt_spec(a) {
            RgbaF32 {
                r: unit(sums.r.over_spec(sums.weight).over_spec(a)),
                g: unit(sums.g.over_spec(sums.weight).over_spec(a)),
                b: unit(sums.b.over_spec(sums.weight).over_spec(a)),
                a: unit(a),
            }
        } else {
            RgbaF32 { r: zero, g: Single { bits: ONE }, b: zero, a: unit(a) }
        }
    }
}

/// A radius of at least one.
pub open spec fn sample_radius(radius: Single) -> Single {
    if radius.lt_spec(Single { bits: ONE }) {
        Single { bits: ONE }
    } else {
        radius
    }
}

/// The tiles that a spot reaches.
pub open spec fn spot_range(x: Single, y: Single, radius: Single) -> TileRange {
    tiles_around(x, y, radius.plus_spec(Single { bits: ONE }))
}

/// The average colour of a canvas in a round spot.
pub open spec fn color_at(
    tiles: Map<(i32, i32), TilePixels>,
    x: Single,
    y: Single,
    radius: Single,
) -> RgbaF32 {
    let r = sample_radius(radius);
    let range = spot_range(x, y, r);
    averaged(color_sums(tiles, x, y, r, range, tile_total(range) as nat))
}

fn average(sums: Sums) -> (c: RgbaF32)
    ensures
        c == averaged(sums),
{
    let zero = Single { bits: 0 };
    if sums.weight.le(zero) {
        return RgbaF32::transparent();
    }
    let a = sums.a.over(sums.weight);
    if zero.lt(a) {
        RgbaF32::new(
            to_unit(sums.r.over(sums.weight).over(a)),
            to_unit(sums.g.over(sums.weight).over(a)),
            to_unit(sums.b.over(sums.weight).over(a)),
            to_unit(a),
        )
    } else {
        RgbaF32::new(zero, Single { bits: ONE }, zero, to_unit(a))
    }
}

/// The average colour of a surface in a round spot, weighed like the mask of
/// a dab of hardness one half.
pub fn get_color_default<S: TiledSurface>(
    surface: &S,
    x: Single,
    y: Single,
    radius: Single,
) -> (c: RgbaF32)
    requires
        surface.wf(),
    ensures
        c == color_at(visible::<S>(surface.tiles()), x, y, radius),
{
    let one = Single { bits: ONE };
    let zero = Single { bits: 0 };
    let radius = if radius.lt(one) {
        one
    } else {
        radius
    };
    let range: TileRange = tile_range(x, y, radius.plus(one));
    let mut sums = Sums { weight: zero, r: zero, g: zero, b: zero, a: zero };
    if range.tx1 < range.tx0 || range.ty1 < range.ty0 {
        return average(sums);
    }
    let mut ty: i32 = range.ty0;
    assert(tile_number(range, range.tx0 as int, ty as int) == 0) by {
        assert(0 * columns(range) == 0);
    }
    while ty <= range.ty1
        invariant
            surface.wf(),
            range.tx0 <= range.tx1,
            -0x200_0000 <= range.tx0,
            range.tx1 <= 0x1ff_ffff,
            -0x200_0000 <= range.ty0 <= ty <= range.ty1 + 1,
            range.ty1 <= 0x1ff_ffff,
            sums == color_sums(
                visible::<S>(surface.tiles()),
                x,
                y,
                radius,
                range,
                tile_number(range, range.tx0 as int, ty as int) as nat,
            ),
        decreases range.ty1 + 1 - ty,
    {
        let mut tx: i32 = range.tx0;
        while tx <= range.tx1
            invariant
                surface.wf(),
                -0x200_0000 <= range.tx0 <= tx <= range.tx1 + 1,
                range.tx1 <= 0x1ff_ffff,
                -0x200_0000 <= range.ty0 <= ty <= range.ty1,
                range.ty1 <= 0x1ff_ffff,
                sums == color_sums(
                    visible::<S>(surface.tiles()),
                    x,
                    y,
                    radius,
                    range,
                    tile_number(range, tx as int, ty as int) as nat,
                ),
            decreases range.tx1 + 1 - tx,
        {
            proof {
                lemma_tile_number(range, tx as int, ty as int);
            }
            let entries: Vec<MaskEntry> = for_each_mask_pixel(x, y, radius, tx, ty);
            sums = add_tile(sums, &entries, surface.tile_lookup(tx, ty));
            tx += 1;
        }
        proof {
            lemma_next_row(range, ty as int);
        }
        ty += 1;
    }
    assert(tile_number(range, range.tx0 as int, ty as int) == tile_total(range)) by {
        let w = columns(range);
        let h = range.ty1 - range.ty0 + 1;
        assert(h * w == w * h) by (nonlinear_arith);
    }
    average(sums)
}

/// Whether a sampler answers for every pixel, always in the same way.
pub open spec fn is_sampler<F: Fn(i32, i32) -> [u16; 4]>(f: F) -> bool {
    &&& forall|px: i32, py: i32| call_requires(f, (px, py))
    &&& forall|px: i32, py: i32, a: [u16; 4], b: [u16; 4]|
        call_ensures(f, (px, py), a) && call_ensures(f, (px, py), b) ==> a == b
}

/// What a sampler answers.
pub open spec fn sampled<F: Fn(i32, i32) -> [u16; 4]>(f: F, px: i32, py: i32) -> [u16; 4] {
    choose|a: [u16; 4]| call_ensures(f, (px, py), a)
}

/// The squared relative distance of a pixel from a round spot.
pub open spec fn spot_distance(px: i32, py: i32, x: Single, y: Single, inv_r2: Single) -> Single {
    let one = Single { bits: ONE };
    rr_at_spec(
        Single::from_i32_spec(px),
        Single::from_i32_spec(py),
        x,
        y,
        Ellipse { aspect: one, cs: one, sn: Single { bits: 0 } },
        inv_r2,
    )
}

/// Sums with one more pixel, unless it lies outside the spot.
pub open spec fn with_pixel(sums: Sums, p: [u16; 4], rr: Single) -> Sums {
    if (Single { bits: ONE }).lt_spec(rr) {
        sums
    } else {
        let w = opa_at_spec(rr, Single { bits: HALF });
        Sums {
            weight: sums.weight.plus_spec(w),
            r: sums.r.plus_spec(fraction(p@[0]).times_spec(w)),
            g: sums.g.plus_spec(fraction(p@[1]).times_spec(w)),
            b: sums.b.plus_spec(fraction(p@[2]).times_spec(w)),
            a: sums.a.plus_spec(fraction(p@[3]).times_spec(w)),
        }
    }
}

/// The sums over the first `n` pixels of a box, counted row by row.
pub open spec fn pixel_sums<F: Fn(i32, i32) -> [u16; 4]>(
    f: F,
    x: Single,
    y: Single,
    inv_r2: Single,
    pixels: TileRange,
    n: nat,
) -> Sums
    decreases n,
{
    if n == 0 {
        Sums::zero()
    } else {
        let px = nth_tx(pixels, n - 1) as i32;
        let py = nth_ty(pixels, n - 1) as i32;
        with_pixel(
            pixel_sums(f, x, y, inv_r2, pixels, (n - 1) as nat),
            sampled(f, px, py),
            spot_distance(px, py, x, y, inv_r2),
        )
    }
}

/// The straight-alpha colour of sums over premultiplied fractions.
pub open spec fn unmultiplied(sums: Sums) -> RgbaF32 {
    let zero = Single { bits: 0 };
    let alpha = sums.a.over_spec(sums.weight);
    if sums.weight.le_spec(zero) || alpha.le_spec(zero) {
        RgbaF32::transparent_spec()
    } else {
        RgbaF32 {
            r: unit(sums.r.over_spec(sums.a)),
            g: unit(sums.g.over_spec(sums.a)),
            b: unit(sums.b.over_spec(sums.a)),
            a: unit(alpha),
        }
    }
}

/// The pixels that a spot may cover.
pub open spec fn spot_pixels(x: Single, y: Single, radius: Single) -> TileRange {
    let reach = radius.plus_spec(Single { bits: ONE });
    TileRange {
        tx0: x.minus_spec(reach).floor_i32_spec(),
        ty0: y.minus_spec(reach).floor_i32_spec(),
        tx1: x.plus_spec(reach).ceil_i32_spec(),
        ty1: y.plus_spec(reach).ceil_i32_spec(),
    }
}

/// The average colour of whatever a sampler reads, in a round spot.
pub fn get_color_via_sample<F: Fn(i32, i32) -> [u16; 4]>(
    x: Single,
    y: Single,
    radius: Single,
    sample: F,
) -> (c: RgbaF32)
    requires
        is_sampler(sample),
    ensures
        ({
            let one = Single { bits: ONE };
            let r = radius.max_spec(one);
            let pixels = spot_pixels(x, y, r);
            c == unmultiplied(
                pixel_sums(
                    sample,
                    x,
                    y,
                    one.over_spec(r.times_spec(r)),
                    pixels,
                    tile_total(pixels) as nat,
                ),
            )
        }),
{
    let one = Single { bits: ONE };
    let zero = Single { bits: 0 };
    let half = Single { bits: HALF };
    let radius = radius.max(one);
    let inv_r2 = one.over(radius.times(radius));
    let reach = radius.plus(one);
    let pixels = TileRange {
        tx0: x.minus(reach).floor_i32(),
        ty0: y.minus(reach).floor_i32(),
        tx1: x.plus(reach).ceil_i32(),
        ty1: y.plus(reach).ceil_i32(),
    };
    let ellipse = Ellipse { aspect: one, cs: one, sn: zero };
    let mut sums = Sums { weight: zero, r: zero, g: zero, b: zero, a: zero };
    if pixels.tx0 <= pixels.tx1 {
        let mut py: i64 = pixels.ty0 as i64;
        assert(tile_number(pixels, pixels.tx0 as int, py as int) == 0) by {
            assert(0 * columns(pixels) == 0);
        }
        while py <= pixels.ty1 as i64
            invariant
                is_sampler(sample),
                pixels.tx0 <= pixels.tx1,
                pixels.ty0 <= py,
                py <= pixels.ty1 + 1 || py == pixels.ty0,
                one == (Single { bits: ONE }),
                half == (Single { bits: HALF }),
                ellipse == (Ellipse { aspect: one, cs: one, sn: Single { bits: 0 } }),
                sums == pixel_sums(
                    sample,
                    x,
                    y,
                    inv_r2,
                    pixels,
                    tile_number(pixels, pixels.tx0 as int, py as int) as nat,
                ),
            decreases pixels.ty1 + 1 - py,
        {
            let mut px: i64 = pixels.tx0 as i64;
            while px <= pixels.tx1 as i64
                invariant
                    is_sampler(sample),
                    pixels.tx0 <= px <= pixels.tx1 + 1,
                    pixels.ty0 <= py <= pixels.ty1,
                    one == (Single { bits: ONE }),
                    half == (Single { bits: HALF }),
                    ellipse == (Ellipse { aspect: one, cs: one, sn: Single { bits: 0 } }),
                    sums == pixel_sums(
                        sample,
                        x,
                        y,
                        inv_r2,
                        pixels,
                        tile_number(pixels, px as int, py as int) as nat,
                    ),
                decreases pixels.tx1 + 1 - px,
            {
                proof {
                    lemma_tile_number(pixels, px as int, py as int);
                }
                let cx: i32 = px as i32;
                let cy: i32 = py as i32;
                let rr = rr_at(Single::from_i32(cx), Single::from_i32(cy), x, y, ellipse, inv_r2);
                if !one.lt(rr) {
                    let w = opa_at(rr, half);
                    let p: [u16; 4] = sample(cx, cy);
                    assert(p == sampled(sample, cx, cy));
                    sums =
                    Sums {
                        weight: sums.weight.plus(w),
                        r: sums.r.plus(to_f32(p[0]).times(w)),
                        g: sums.g.plus(to_f32(p[1]).times(w)),
                        b: sums.b.plus(to_f32(p[2]).times(w)),
                        a: sums.a.plus(to_f32(p[3]).times(w)),
                    };
                }
                px += 1;
            }
            proof {
                lemma_next_row(pixels, py as int);
            }
            py += 1;
        }
        assert(pixels.ty0 <= pixels.ty1 ==> tile_number(pixels, pixels.tx0 as int, py as int)
            == tile_total(pixels)) by {
            let w = columns(pixels);
            let h = pixels.ty1 - pixels.ty0 + 1;
            assert(h * w == w * h) by (nonlinear_arith);
        }
    }
    if sums.weight.le(zero) {
        return RgbaF32::transparent();
    }
    let alpha = sums.a.over(sums.weight);
    if alpha.le(zero) {
        return RgbaF32::transparent();
    }
    RgbaF32::new(
        to_unit(sums.r.over(sums.a)),
        to_unit(sums.g.over(sums.a)),
        to_unit(sums.b.over(sums.a)),
        to_unit(alpha),
    )
}

proof fn lemma_no_channel(entries: Seq<MaskEntry>, c: int, n: nat)
    ensures
        channel_sum(entries, None, c, n) == 0,
    decreases n,
{
    if n > 0 {
        lemma_no_channel(entries, c, (n - 1) as nat);
        assert(entries[n - 1].2 * 0int == 0);
    }
}

proof fn lemma_weight(entries: Seq<MaskEntry>, n: nat)
    ensures
        weight_sum(entries, n) >= 0,
    decreases n,
{
    if n > 0 {
        lemma_weight(entries, (n - 1) as nat);
    }
}

/// A sum of a number and a count is a number, and not below zero.
proof fn lemma_more_weight(a: Single, n: int)
    requires
        !a.nan(),
        a.value() >= 0,
        n >= 0,
    ensures
        !a.plus_spec(Single::of(n)).nan(),
        a.plus_spec(Single::of(n)).value() >= 0,
{
    let b = Single::of(n);
    lemma_infinity_units();
    assert(!b.nan() && b.value() >= 0) by {
        reveal(Single::of);
    }
    lemma_plus_non_negative(a, b);
    assert(!a.plus_spec(b).nan()) by {
        if a.finite() && b.finite() {
            lemma_plus_value(a, b);
        } else {
            reveal(Single::plus_spec);
            lemma_one();
            if !a.finite() {
                lemma_finite_or_infinite(a);
            }
            if !b.finite() {
                lemma_finite_or_infinite(b);
            }
        }
    }
}

proof fn lemma_bare_sums(x: Single, y: Single, radius: Single, range: TileRange, n: nat)
    ensures
        ({
            let sums = color_sums(Map::empty(), x, y, radius, range, n);
            &&& sums.a == (Single { bits: 0 })
            &&& !sums.weight.nan()
            &&& sums.weight.value() >= 0
        }),
    decreases n,
{
    let zero = Single { bits: 0 };
    lemma_one();
    if n > 0 {
        lemma_bare_sums(x, y, radius, range, (n - 1) as nat);
        let sums = color_sums(Map::empty(), x, y, radius, range, (n - 1) as nat);
        let entries = spot_mask(x, y, radius, nth_tx(range, n - 1), nth_ty(range, n - 1));
        lemma_no_channel(entries, 3, entries.len());
        lemma_weight(entries, entries.len());
        lemma_more_weight(sums.weight, weight_sum(entries, entries.len()));
        lemma_of_exact(0);
        lemma_no_units(Single::of(0));
        law_plus_nothing(zero);
    }
}

/// Where there is nothing to look at, the colour has no alpha.
pub proof fn law_bare_canvas_is_transparent(x: Single, y: Single, radius: Single)
    ensures
        color_at(Map::empty(), x, y, radius).a == (Single { bits: 0 }),
{
    let zero = Single { bits: 0 };
    let r = sample_radius(radius);
    let range = spot_range(x, y, r);
    let n = tile_total(range) as nat;
    let sums = color_sums(Map::empty(), x, y, r, range, n);
    lemma_bare_sums(x, y, r, range, n);
    lemma_one();
    lemma_magnitude_zero();
    if !sums.weight.le_spec(zero) {
        assert(zero.over_spec(sums.weight) == zero) by {
            reveal(Single::over_spec);
            lemma_no_units(sums.weight);
            assert(0 * pow2(149) == 0);
            if sums.weight.finite() {
                lemma_nearest_at_most(0, sums.weight.units(), 0);
            }
        }
    }
}

} // verus!
