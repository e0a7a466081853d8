//! Picking up pigment from a canvas: a running spectral average over a thin
//! sample of the pixels.
use crate::color::{to_unit, unit, RgbaF32};
use crate::draw::{tile_range, TileRange};
use crate::mask::MaskEntry;
use crate::rand::{successor, SampleRng};
use crate::rounding::lemma_magnitude_increases;
use crate::sampling::{
    columns, for_each_mask_pixel, lemma_next_row, lemma_tile_number, nth_tx, nth_ty, sample_radius,
    spot_mask, spot_range, tile_at, tile_number, tile_pixel, tile_total,
};
use crate::single::{Single, ONE, TWO};
use crate::spectral::{blended, mix_spectra, rgb_to_spectral, seen, spectral_to_rgb, spectrum};
use crate::surface::{visible, TiledSurface};
use crate::tile::{pixel, TilePixels};
use vstd::prelude::*;

verus! {

/// 7.0, 32768.0, 2^30 and 2^31.
pub const SEVEN: u32 = 0x40e0_0000;

pub const FULL: u32 = 0x4700_0000;

pub const FULL_SQUARED: u32 = 0x4e80_0000;

pub const RAND_RANGE: u32 = 0x4f00_0000;

/// What was picked up so far.
#[verifier::ext_equal]
pub struct Pickup {
    pub weight: Single,
    pub alpha: Single,
    pub bands: Seq<Single>,
    pub rgb: Seq<Single>,
}

/// The state of a scan: what was picked up, how many pixels ago one was
/// taken by turn, and the state of the random numbers.
#[verifier::ext_equal]
pub struct Scan {
    pub pickup: Pickup,
    pub counter: int,
    pub rng: int,
}

/// How a scan thins out pixels, and how far it is spectral.
#[derive(Clone, Copy, Debug, PartialEq, Eq, Structural)]
pub struct Thinning {
    /// Every how many pixels one is taken.
    pub interval: u32,
    /// Below which random number another one is taken.
    pub threshold: i32,
    pub paint: Single,
}

pub open spec fn thinning(radius: Single, paint: Single) -> Thinning {
    let seven = Single { bits: SEVEN };
    Thinning {
        interval: if radius.le_spec(Single { bits: TWO }) {
            1
        } else {
            radius.times_spec(seven).to_u32_spec()
        },
        threshold: (Single { bits: ONE }).over_spec(seven.times_spec(radius)).times_spec(
            Single { bits: RAND_RANGE },
        ).to_i32_spec(),
        paint,
    }
}

/// The alpha of a pixel, weighed by its coverage.
pub open spec fn weighed_alpha(mask: int, alpha: int) -> Single {
    Single::of(mask).times_spec(Single::of(alpha)).over_spec(Single { bits: FULL_SQUARED })
}

/// The share of a new pixel in the average.
pub open spec fn new_share(a: Single, sum: Single) -> Single {
    if (Single { bits: 0 }).lt_spec(a.plus_spec(sum)) {
        a.over_spec(a.plus_spec(sum))
    } else {
        Single { bits: ONE }
    }
}

/// The share that the average keeps.
pub open spec fn old_share(a: Single, sum: Single) -> Single {
    if (Single { bits: 0 }).lt_spec(a.plus_spec(sum)) {
        (Single { bits: ONE }).minus_spec(new_share(a, sum))
    } else {
        Single { bits: ONE }
    }
}

/// One more pixel `(r, g, b, alpha)` that is covered by `mask`.
pub open spec fn picked(
    v: Pickup,
    mask: int,
    r: int,
    g: int,
    b: int,
    alpha: int,
    paint: Single,
) -> Pickup {
    let a = weighed_alpha(mask, alpha);
    let fa = new_share(a, v.alpha);
    let fb = old_share(a, v.alpha);
    let pa = Single::of(alpha);
    Pickup {
        weight: v.weight.plus_spec(Single::of(mask).over_spec(Single { bits: FULL })),
        alpha: v.alpha.plus_spec(a),
        bands: if (Single { bits: 0 }).lt_spec(paint) && alpha > 0 {
            blended(
                spectrum(
                    Single::of(r).over_spec(pa),
                    Single::of(g).over_spec(pa),
                    Single::of(b).over_spec(pa),
                ),
                v.bands,
                fa,
                fb,
            )
        } else {
            v.bands
        },
        rgb: if paint.lt_spec(Single { bits: ONE }) && alpha > 0 {
            seq![
                Single::of(r).times_spec(fa).over_spec(pa).plus_spec(v.rgb[0].times_spec(fb)),
                Single::of(g).times_spec(fa).over_spec(pa).plus_spec(v.rgb[1].times_spec(fb)),
                Single::of(b).times_spec(fa).over_spec(pa).plus_spec(v.rgb[2].times_spec(fb)),
            ]
        } else {
            v.rgb
        },
    }
}

/// The scan after one more pixel: it is taken by turn, or else by chance.
pub open spec fn scanned(
    s: Scan,
    e: MaskEntry,
    tile: Option<TilePixels>,
    t: Thinning,
) -> Scan {
    let drawn = s.counter != 0 && t.interval > 1;
    let rng = if drawn {
        successor(s.rng)
    } else {
        s.rng
    };
    let taken = s.counter == 0 || (drawn && rng < t.threshold);
    let (x, y) = (e.0 as int, e.1 as int);
    Scan {
        pickup: if taken {
            picked(
                s.pickup,
                e.2 as int,
                tile_pixel(tile, x, y, 0),
                tile_pixel(tile, x, y, 1),
                tile_pixel(tile, x, y, 2),
                tile_pixel(tile, x, y, 3),
                t.paint,
            )
        } else {
            s.pickup
        },
        counter: if t.interval > 1 {
            (s.counter + 1) % (t.interval as int)
        } else {
            0
        },
        rng,
    }
}

/// The scan after the first `n` covered pixels of a tile.
pub open spec fn tile_scan(
    s: Scan,
    entries: Seq<MaskEntry>,
    tile: Option<TilePixels>,
    t: Thinning,
    n: nat,
) -> Scan
    decreases n,
{
    if n == 0 {
        Scan { counter: 0, ..s }
    } else {
        scanned(tile_scan(s, entries, tile, t, (n - 1) as nat), entries[n - 1], tile, t)
    }
}

/// The scan after the first `n` tiles of a range.
pub open spec fn canvas_scan(
    s: Scan,
    tiles: Map<(i32, i32), TilePixels>,
    x: Single,
    y: Single,
    radius: Single,
    t: Thinning,
    range: TileRange,
    n: nat,
) -> Scan
    decreases n,
{
    if n == 0 {
        s
    } else {
        let tx = nth_tx(range, n - 1);
        let ty = nth_ty(range, n - 1);
        let entries = spot_mask(x, y, radius, tx, ty);
        tile_scan(
            canvas_scan(s, tiles, x, y, radius, t, range, (n - 1) as nat),
            entries,
            tile_at(tiles, tx as i32, ty as i32),
            t,
            entries.len(),
        )
    }
}

/// Nothing picked up: the spectrum of black.
pub open spec fn nothing() -> Pickup {
    let zero = Single { bits: 0 };
    Pickup {
        weight: zero,
        alpha: zero,
        bands: spectrum(zero, zero, zero),
        rgb: seq![zero, zero, zero],
    }
}

/// The straight-alpha colour of what was picked up.
pub open spec fn pigment_color(v: Pickup, paint: Single) -> RgbaF32 {
    let zero = Single { bits: 0 };
    let one = Single { bits: ONE };
    if v.weight.le_spec(zero) {
        RgbaF32::transparent_spec()
    } else {
        let a = v.alpha.over_spec(v.weight);
        let c = seen(v.bands);
        let linear = one.minus_spec(paint);
        if zero.lt_spec(a) {
            RgbaF32 {
                r: unit(c.0.times_spec(paint).plus_spec(linear.times_spec(v.rgb[0]))),
                g: unit(c.1.times_spec(paint).plus_spec(linear.times_spec(v.rgb[1]))),
                b: unit(c.2.times_spec(paint).plus_spec(linear.times_spec(v.rgb[2]))),
                a: unit(a),
            }
        } else {
            RgbaF32 { r: zero, g: one, b: zero, a: unit(a) }
        }
    }
}

/// What was picked up so far, in memory.
#[derive(Clone, Copy, Debug)]
struct Average {
    weight: Single,
    alpha: Single,
    bands: [Single; 10],
    rgb: [Single; 3],
}

impl Average {
    spec fn view(&self) -> Pickup {
        Pickup { weight: self.weight, alpha: self.alpha, bands: self.bands@, rgb: self.rgb@ }
    }

    /// Picks up one pixel.
    fn pick(self, mask: u32, p: [u16; 4], paint: Single) -> (r: Average)
        ensures
            r.view() == picked(
                self.view(),
                mask as int,
                p@[0] as int,
                p@[1] as int,
                p@[2] as int,
                p@[3] as int,
                paint,
            ),
    {
        let zero = Single { bits: 0 };
        let one = Single { bits: ONE };
        let pa = Single::from_u32(p[3] as u32);
        let m = Single::from_u32(mask);
        let a = m.times(pa).over(Single { bits: FULL_SQUARED });
        let sum = a.plus(self.alpha);
        let (fa, fb): (Single, Single) = if zero.lt(sum) {
            let f = a.over(sum);
            (f, one.minus(f))
        } else {
            (one, one)
        };
        let bands: [Single; 10] = if zero.lt(paint) && p[3] > 0 {
            let new = rgb_to_spectral(
                Single::from_u32(p[0] as u32).over(pa),
                Single::from_u32(p[1] as u32).over(pa),
                Single::from_u32(p[2] as u32).over(pa),
            );
            mix_spectra(&new, &self.bands, fa, fb)
        } else {
            self.bands
        };
        let rgb: [Single; 3] = if paint.lt(one) && p[3] > 0 {
            [
                Single::from_u32(p[0] as u32).times(fa).over(pa).plus(self.rgb[0].times(fb)),
                Single::from_u32(p[1] as u32).times(fa).over(pa).plus(self.rgb[1].times(fb)),
                Single::from_u32(p[2] as u32).times(fa).over(pa).plus(self.rgb[2].times(fb)),
            ]
        } else {
            self.rgb
        };
        let r = Average {
            weight: self.weight.plus(m.over(Single { bits: FULL })),
            alpha: self.alpha.plus(a),
            bands,
            rgb,
        };
        assert(r.view() =~= picked(
            self.view(),
            mask as int,
            p@[0] as int,
            p@[1] as int,
            p@[2] as int,
            p@[3] as int,
            paint,
        ));
        r
    }

    /// Picks up the pixels of one tile.
    fn scan_tile(
        self,
        entries: &Vec<MaskEntry>,
        tile: Option<&TilePixels>,
        t: Thinning,
        rng: &mut SampleRng,
    ) -> (r: Average)
        requires
            old(rng).wf(),
            forall|i: int|
                0 <= i < entries@.len() ==> (#[trigger] entries@[i]).0 < 64 && entries@[i].1 < 64,
        ensures
            final(rng).wf(),
            ({
                let end = tile_scan(
                    Scan { pickup: self.view(), counter: 0, rng: old(rng).state as int },
                    entries@,
                    match tile {
                        Some(p) => Some(*p),
                        None => None,
                    },
                    t,
                    entries@.len(),
                );
                r.view() == end.pickup && final(rng).state == end.rng
            }),
    {
        let ghost start = Scan { pickup: self.view(), counter: 0, rng: rng.state as int };
        let ghost there: Option<TilePixels> = match tile {
            Some(p) => Some(*p),
            None => None,
        };
        let mut average = self;
        let mut counter: u32 = 0;
        let mut i: usize = 0;
        while i < entries.len()
            invariant
                i <= entries@.len(),
                rng.wf(),
                forall|j: int|
                    0 <= j < entries@.len() ==> (#[trigger] entries@[j]).0 < 64 && entries@[j].1
                        < 64,
                there == (match tile {
                    Some(p) => Some(*p),
                    None => None,
                }),
                counter == 0 || counter < t.interval,
                tile_scan(start, entries@, there, t, i as nat) == (Scan {
                    pickup: average.view(),
                    counter: counter as int,
                    rng: rng.state as int,
                }),
            decreases entries@.len() - i,
        {
            let (lx, ly, mask): MaskEntry = entries[i];
            let taken: bool = if counter == 0 {
                true
            } else if t.interval > 1 {
                rng.c_rand() < t.threshold
            } else {
                false
            };
            if taken {
                let p: [u16; 4] = match tile {
                    Some(tp) => {
                        let q: [u16; 4] = tp[ly][lx];
                        assert(q == pixel(*tp, lx as int, ly as int));
                        q
                    },
                    None => [0, 0, 0, 0],
                };
                average = average.pick(mask, p, t.paint);
            }
            counter =
            if t.interval > 1 {
                (counter + 1) % t.interval
            } else {
                0
            };
            i += 1;
        }
        average
    }
}

/// The scan of the tiles around a round spot.
pub open spec fn spot_scan(
    tiles: Map<(i32, i32), TilePixels>,
    x: Single,
    y: Single,
    radius: Single,
    paint: Single,
    rng: SampleRng,
) -> Scan {
    let r = sample_radius(radius);
    let range = spot_range(x, y, r);
    canvas_scan(
        Scan { pickup: nothing(), counter: 0, rng: rng.state as int },
        tiles,
        x,
        y,
        r,
        thinning(r, paint),
        range,
        tile_total(range) as nat,
    )
}

/// The colour of a surface in a round spot, mixed like pigments as far as
/// `paint` goes.  Large spots are sampled thinly, by turn and by chance.
pub fn get_color_pigment_default<S: TiledSurface>(
    surface: &S,
    x: Single,
    y: Single,
    radius: Single,
    paint: Single,
    rng: &mut SampleRng,
) -> (c: RgbaF32)
    requires
        surface.wf(),
        old(rng).wf(),
    ensures
        final(rng).wf(),
        c == pigment_color(
            spot_scan(visible::<S>(surface.tiles()), x, y, radius, paint, *old(rng)).pickup,
            paint,
        ),
        final(rng).state == spot_scan(
            visible::<S>(surface.tiles()),
            x,
            y,
            radius,
            paint,
            *old(rng),
        ).rng,
{
    let one = Single { bits: ONE };
    let zero = Single { bits: 0 };
    let seven = Single { bits: SEVEN };
    let radius = if radius.lt(one) {
        one
    } else {
        radius
    };
    let range: TileRange = tile_range(x, y, radius.plus(one));
    let t = Thinning {
        interval: if radius.le(Single { bits: TWO }) {
            1
        } else {
            radius.times(seven).to_u32()
        },
        threshold: one.over(seven.times(radius)).times(Single { bits: RAND_RANGE }).to_i32(),
        paint,
    };
    let mut average = Average {
        weight: zero,
        alpha: zero,
        bands: rgb_to_spectral(zero, zero, zero),
        rgb: [zero, zero, zero],
    };
    let ghost start = Scan { pickup: nothing(), counter: 0, rng: rng.state as int };
    assert(average.view() =~= nothing());
    if range.tx0 <= range.tx1 && range.ty0 <= range.ty1 {
        let mut ty: i32 = range.ty0;
        assert(tile_number(range, range.tx0 as int, ty as int) == 0) by {
            assert(0 * columns(range) == 0);
        }
        while ty <= range.ty1
            invariant
                surface.wf(),
                rng.wf(),
                range.tx0 <= range.tx1,
                -0x200_0000 <= range.tx0,
                range.tx1 <= 0x1ff_ffff,
                -0x200_0000 <= range.ty0 <= ty <= range.ty1 + 1,
                range.ty1 <= 0x1ff_ffff,
                ({
                    let s = canvas_scan(
                        start,
                        visible::<S>(surface.tiles()),
                        x,
                        y,
                        radius,
                        t,
                        range,
                        tile_number(range, range.tx0 as int, ty as int) as nat,
                    );
                    average.view() == s.pickup && rng.state == s.rng
                }),
            decreases range.ty1 + 1 - ty,
        {
            let mut tx: i32 = range.tx0;
            while tx <= range.tx1
                invariant
                    surface.wf(),
                    rng.wf(),
                    -0x200_0000 <= range.tx0 <= tx <= range.tx1 + 1,
                    range.tx1 <= 0x1ff_ffff,
                    -0x200_0000 <= range.ty0 <= ty <= range.ty1,
                    range.ty1 <= 0x1ff_ffff,
                    ({
                        let s = canvas_scan(
                            start,
                            visible::<S>(surface.tiles()),
                            x,
                            y,
                            radius,
                            t,
                            range,
                            tile_number(range, tx as int, ty as int) as nat,
                        );
                        average.view() == s.pickup && rng.state == s.rng
                    }),
                decreases range.tx1 + 1 - tx,
            {
                let ghost n = tile_number(range, tx as int, ty as int);
                let ghost s = canvas_scan(
                    start,
                    visible::<S>(surface.tiles()),
                    x,
                    y,
                    radius,
                    t,
                    range,
                    n as nat,
                );
                let entries: Vec<MaskEntry> = for_each_mask_pixel(x, y, radius, tx, ty);
                let tile: Option<&TilePixels> = surface.tile_lookup(tx, ty);
                average = average.scan_tile(&entries, tile, t, rng);
                proof {
                    lemma_tile_number(range, tx as int, ty as int);
                    lemma_counter_restarts(
                        s,
                        entries@,
                        tile_at(visible::<S>(surface.tiles()), tx, ty),
                        t,
                        entries@.len(),
                    );
                }
                tx += 1;
            }
            proof {
                lemma_next_row(range, ty as int);
            }
            ty += 1;
        }
        assert(tile_number(range, range.tx0 as int, ty as int) == tile_total(range)) by {
            let w = columns(range);
            let h = range.ty1 - range.ty0 + 1;
            assert(h * w == w * h) by (nonlinear_arith);
        }
    }
    if average.weight.le(zero) {
        return RgbaF32::transparent();
    }
    let a = average.alpha.over(average.weight);
    let (r, g, b): (Single, Single, Single) = spectral_to_rgb(&average.bands);
    let linear = one.minus(paint);
    if zero.lt(a) {
        RgbaF32::new(
            to_unit(r.times(paint).plus(linear.times(average.rgb[0]))),
            to_unit(g.times(paint).plus(linear.times(average.rgb[1]))),
            to_unit(b.times(paint).plus(linear.times(average.rgb[2]))),
            to_unit(a),
        )
    } else {
        RgbaF32::new(zero, one, zero, to_unit(a))
    }
}

/// Every tile starts its own count.
proof fn lemma_counter_restarts(
    s: Scan,
    entries: Seq<MaskEntry>,
    tile: Option<TilePixels>,
    t: Thinning,
    n: nat,
)
    ensures
        tile_scan(s, entries, tile, t, n) == tile_scan(
            Scan { counter: 0, ..s },
            entries,
            tile,
            t,
            n,
        ),
    decreases n,
{
    if n > 0 {
        lemma_counter_restarts(s, entries, tile, t, (n - 1) as nat);
    }
}

proof fn lemma_tile_without_chance(
    s: Scan,
    entries: Seq<MaskEntry>,
    tile: Option<TilePixels>,
    t: Thinning,
    n: nat,
)
    requires
        t.interval == 1,
    ensures
        tile_scan(s, entries, tile, t, n).rng == s.rng,
        tile_scan(s, entries, tile, t, n).counter == 0,
    decreases n,
{
    if n > 0 {
        lemma_tile_without_chance(s, entries, tile, t, (n - 1) as nat);
    }
}

proof fn lemma_canvas_without_chance(
    s: Scan,
    tiles: Map<(i32, i32), TilePixels>,
    x: Single,
    y: Single,
    radius: Single,
    t: Thinning,
    range: TileRange,
    n: nat,
)
    requires
        t.interval == 1,
    ensures
        canvas_scan(s, tiles, x, y, radius, t, range, n).rng == s.rng,
    decreases n,
{
    if n > 0 {
        lemma_canvas_without_chance(s, tiles, x, y, radius, t, range, (n - 1) as nat);
        let tx = nth_tx(range, n - 1);
        let ty = nth_ty(range, n - 1);
        let entries = spot_mask(x, y, radius, tx, ty);
        lemma_tile_without_chance(
            canvas_scan(s, tiles, x, y, radius, t, range, (n - 1) as nat),
            entries,
            tile_at(tiles, tx as i32, ty as i32),
            t,
            entries.len(),
        );
    }
}

/// A spot of a radius up to two is sampled without chance: no random number is
/// drawn, and the colour does not depend on them.
pub proof fn law_small_spot_leaves_nothing_to_chance(
    tiles: Map<(i32, i32), TilePixels>,
    x: Single,
    y: Single,
    radius: Single,
    paint: Single,
    one: SampleRng,
    other: SampleRng,
)
    requires
        radius.le_spec(Single { bits: TWO }),
    ensures
        spot_scan(tiles, x, y, radius, paint, one).rng == one.state,
        spot_scan(tiles, x, y, radius, paint, one).pickup == spot_scan(
            tiles,
            x,
            y,
            radius,
            paint,
            other,
        ).pickup,
{
    let r = sample_radius(radius);
    let range = spot_range(x, y, r);
    let t = thinning(r, paint);
    assert(r.le_spec(Single { bits: TWO })) by {
        lemma_magnitude_increases(ONE as nat, TWO as nat, 24);
    }
    let a = Scan { pickup: nothing(), counter: 0, rng: one.state as int };
    let b = Scan { pickup: nothing(), counter: 0, rng: other.state as int };
    let n = tile_total(range) as nat;
    lemma_canvas_without_chance(a, tiles, x, y, r, t, range, n);
    lemma_same_pickup(a, b, tiles, x, y, r, t, range, n);
}

proof fn lemma_same_tile_pickup(
    a: Scan,
    b: Scan,
    entries: Seq<MaskEntry>,
    tile: Option<TilePixels>,
    t: Thinning,
    n: nat,
)
    requires
        t.interval == 1,
        a.pickup == b.pickup,
    ensures
        tile_scan(a, entries, tile, t, n).pickup == tile_scan(b, entries, tile, t, n).pickup,
    decreases n,
{
    if n > 0 {
        lemma_same_tile_pickup(a, b, entries, tile, t, (n - 1) as nat);
        lemma_tile_without_chance(a, entries, tile, t, (n - 1) as nat);
        lemma_tile_without_chance(b, entries, tile, t, (n - 1) as nat);
    }
}

proof fn lemma_same_pickup(
    a: Scan,
    b: Scan,
    tiles: Map<(i32, i32), TilePixels>,
    x: Single,
    y: Single,
    radius: Single,
    t: Thinning,
    range: TileRange,
    n: nat,
)
    requires
        t.interval == 1,
        a.pickup == b.pickup,
    ensures
        canvas_scan(a, tiles, x, y, radius, t, range, n).pickup == canvas_scan(
            b,
            tiles,
            x,
            y,
            radius,
            t,
            range,
            n,
        ).pickup,
    decreases n,
{
    if n > 0 {
        lemma_same_pickup(a, b, tiles, x, y, radius, t, range, (n - 1) as nat);
        let tx = nth_tx(range, n - 1);
        let ty = nth_ty(range, n - 1);
        let entries = spot_mask(x, y, radius, tx, ty);
        lemma_same_tile_pickup(
            canvas_scan(a, tiles, x, y, radius, t, range, (n - 1) as nat),
            canvas_scan(b, tiles, x, y, radius, t, range, (n - 1) as nat),
            entries,
            tile_at(tiles, tx as i32, ty as i32),
            t,
            entries.len(),
        );
    }
}

} // verus!
