//! Canvases as pixmaps for compositing elsewhere.
//!
//! A pixmap holds premultiplied sRGB bytes; a canvas holds premultiplied
//! linear light.
use crate::color::unit;
use crate::double::Double;
use crate::elementary::{Answers, Elementary, Narrow, Wide};
use crate::fix15::{fraction, lemma_fraction_is_exact, to_f32};
use crate::range::lemma_one;
use crate::render::{byte_of, byte_over_white, lemma_pixel_number, shown_at, to_byte, BYTE};
use crate::rounding::lemma_magnitude_increases;
use crate::single::{
    law_minus_itself, law_over_one, law_plus_nothing, law_times_one, lemma_magnitude_zero, Single,
    ONE,
};
use crate::surface::{visible, TiledSurface};
use crate::tile::TilePixels;
use vstd::arithmetic::power2::*;
use vstd::prelude::*;

verus! {

/// The pixmap of `tiny_skia`, whose contents only the functions below speak
/// of.
#[verifier::external_type_specification]
#[verifier::external_body]
pub struct ExPixmap(tiny_skia::Pixmap);

/// The pixels of a pixmap, row by row: red, green, blue and alpha.
pub uninterp spec fn pixmap_pixels(p: tiny_skia::Pixmap) -> Seq<(u8, u8, u8, u8)>;

/// The width and the height of a pixmap.
pub uninterp spec fn pixmap_size(p: tiny_skia::Pixmap) -> (u32, u32);

/// Whether there can be a pixmap of a size.
pub open spec fn fits_pixmap(w: u32, h: u32) -> bool {
    &&& 0 < w <= 0x1fff_ffff
    &&& 0 < h
    &&& 4 * (w * h) <= usize::MAX
}

pub fn is_pixmap_size(w: u32, h: u32) -> (r: bool)
    ensures
        r == fits_pixmap(w, h),
{
    let n: u128 = w as u128;
    let k: u128 = h as u128;
    assert(0 <= n * k <= 0xffff_ffff * 0xffff_ffff) by (nonlinear_arith)
        requires
            0 <= n <= 0xffff_ffff,
            0 <= k <= 0xffff_ffff,
    ;
    0 < w && w <= 0x1fff_ffff && 0 < h && 4 * (n * k) <= usize::MAX as u128
}

/// Calls `tiny_skia::Pixmap::new`: a transparent pixmap of the given size, or
/// nothing where a side is zero, a row has more than `i32::MAX` bytes, or the
/// number of bytes is no `usize`.
#[verifier::external_body]
fn new_pixmap(w: u32, h: u32) -> (r: Option<tiny_skia::Pixmap>)
    ensures
        r is Some <==> fits_pixmap(w, h),
        r matches Some(p) ==> pixmap_size(p) == (w, h) && pixmap_pixels(p) == Seq::new(
            (w * h) as nat,
            |i: int| (0u8, 0u8, 0u8, 0u8),
        ),
{
    tiny_skia::Pixmap::new(w, h)
}

/// Calls `tiny_skia::Pixmap::fill` with `tiny_skia::Color::WHITE`: every pixel
/// becomes opaque white.
#[verifier::external_body]
fn fill_white(p: &mut tiny_skia::Pixmap)
    ensures
        pixmap_size(*final(p)) == pixmap_size(*old(p)),
        pixmap_pixels(*final(p)) == Seq::new(
            pixmap_pixels(*old(p)).len(),
            |i: int| (255u8, 255u8, 255u8, 255u8),
        ),
{
    p.fill(tiny_skia::Color::WHITE);
}

/// Writes one pixel through `tiny_skia::Pixmap::pixels_mut`, with a colour
/// from `tiny_skia::PremultipliedColorU8::from_rgba`, which there is when no
/// channel is greater than alpha.
#[verifier::external_body]
fn put_pixel(p: &mut tiny_skia::Pixmap, i: usize, c: (u8, u8, u8, u8))
    requires
        i < pixmap_pixels(*old(p)).len(),
        c.0 <= c.3,
        c.1 <= c.3,
        c.2 <= c.3,
    ensures
        pixmap_size(*final(p)) == pixmap_size(*old(p)),
        pixmap_pixels(*final(p)) == pixmap_pixels(*old(p)).update(i as int, c),
{
    p.pixels_mut()[i] = tiny_skia::PremultipliedColorU8::from_rgba(c.0, c.1, c.2, c.3).unwrap();
}

/// A channel of premultiplied linear light over white.
pub open spec fn over_white(c: u16, a: Single, m: Answers) -> u8 {
    byte_of(unit(fraction(c).plus((Single { bits: ONE }).minus(a))), m)
}

/// Alpha as a byte.
pub open spec fn alpha_byte(a: Single) -> u8 {
    unit(a).times(Single { bits: BYTE }).round().to_u8()
}

/// A byte multiplied by an alpha byte, rounded.
pub open spec fn premultiplied(c: u8, a: u8) -> u8 {
    ((c * a + 127) / 255) as u8
}

/// A channel of premultiplied linear light, encoded and then premultiplied.
pub open spec fn encoded_channel(c: u16, a: Single, m: Answers) -> u8 {
    premultiplied(byte_of(unit(fraction(c).over(a)), m), alpha_byte(a))
}

/// What a pixel of a canvas becomes.
pub open spec fn pixel_of(p: Option<[u16; 4]>, white: bool, m: Answers) -> (u8, u8, u8, u8) {
    match p {
        None => if white {
            (255, 255, 255, 255)
        } else {
            (0, 0, 0, 0)
        },
        Some(p) => {
            let a = fraction(p@[3]);
            if white {
                (over_white(p@[0], a, m), over_white(p@[1], a, m), over_white(p@[2], a, m), 255)
            } else if a.le(Single { bits: 0 }) {
                (0, 0, 0, 0)
            } else {
                (
                    encoded_channel(p@[0], a, m),
                    encoded_channel(p@[1], a, m),
                    encoded_channel(p@[2], a, m),
                    alpha_byte(a),
                )
            }
        },
    }
}

/// A canvas as pixels.
pub open spec fn picture(
    tiles: Map<(i32, i32), TilePixels>,
    w: int,
    h: int,
    white: bool,
    m: Answers,
) -> Seq<(u8, u8, u8, u8)> {
    Seq::new((w * h) as nat, |n: int| pixel_of(shown_at(tiles, n % w, n / w), white, m))
}

/// A premultiplied channel is never greater than alpha.
pub proof fn law_premultiplied_is_at_most_alpha(c: u8, a: u8)
    ensures
        (c * a + 127) / 255 <= a,
        premultiplied(c, a) == (c * a + 127) / 255,
        premultiplied(c, 255) == c,
{
    assert(c * a <= 255 * a) by (nonlinear_arith)
        requires
            c <= 255,
            a >= 0,
    ;
    assert(c * a >= 0) by (nonlinear_arith)
        requires
            c >= 0,
            a >= 0,
    ;
}

fn premultiply(c: u8, a: u8) -> (r: u8)
    ensures
        r == premultiplied(c, a),
        r <= a,
{
    proof {
        law_premultiplied_is_at_most_alpha(c, a);
        assert(c * a <= 255 * 255) by (nonlinear_arith)
            requires
                c <= 255,
                a <= 255,
        ;
    }
    ((c as u32 * a as u32 + 127) / 255) as u8
}

fn srgb_byte<N: Fn(Narrow) -> Single, W: Fn(Wide) -> Double>(
    v: Single,
    math: &Elementary<N, W>,
) -> (r: u8)
    requires
        math.wf(),
    ensures
        r == byte_of(unit(v), math.answers()),
{
    to_byte(crate::color::to_unit(v), math)
}

fn convert<N: Fn(Narrow) -> Single, W: Fn(Wide) -> Double>(
    p: [u16; 4],
    white: bool,
    math: &Elementary<N, W>,
) -> (r: (u8, u8, u8, u8))
    requires
        math.wf(),
    ensures
        r == pixel_of(Some(p), white, math.answers()),
        r.0 <= r.3,
        r.1 <= r.3,
        r.2 <= r.3,
{
    let a = to_f32(p[3]);
    if white {
        let rest = (Single { bits: ONE }).minus(a);
        (
            srgb_byte(to_f32(p[0]).plus(rest), math),
            srgb_byte(to_f32(p[1]).plus(rest), math),
            srgb_byte(to_f32(p[2]).plus(rest), math),
            255,
        )
    } else if a.le(Single { bits: 0 }) {
        (0, 0, 0, 0)
    } else {
        let a8: u8 = crate::color::to_unit(a).times(Single { bits: BYTE }).round().to_u8();
        (
            premultiply(srgb_byte(to_f32(p[0]).over(a), math), a8),
            premultiply(srgb_byte(to_f32(p[1]).over(a), math), a8),
            premultiply(srgb_byte(to_f32(p[2]).over(a), math), a8),
            a8,
        )
    }
}

fn flatten<S: TiledSurface, N: Fn(Narrow) -> Single, W: Fn(Wide) -> Double>(
    surface: &S,
    w: u32,
    h: u32,
    white: bool,
    math: &Elementary<N, W>,
) -> (r: tiny_skia::Pixmap)
    requires
        surface.wf(),
        math.wf(),
        fits_pixmap(w, h),
    ensures
        pixmap_size(r) == (w, h),
        pixmap_pixels(r) == picture(
            visible::<S>(surface.tiles()),
            w as int,
            h as int,
            white,
            math.answers(),
        ),
{
    let mut pixmap = new_pixmap(w, h).unwrap();
    if white {
        fill_white(&mut pixmap);
    }
    let ghost tiles = visible::<S>(surface.tiles());
    let ghost m = math.answers();
    let ghost blank = pixel_of(None, white, m);
    let ghost goal = picture(tiles, w as int, h as int, white, m);
    let mut y: u32 = 0;
    assert(0 * w == 0);
    assert(w * h >= 0) by (nonlinear_arith);
    while y < h
        invariant
            y <= h,
            surface.wf(),
            math.wf(),
            fits_pixmap(w, h),
            tiles == visible::<S>(surface.tiles()),
            m == math.answers(),
            blank == pixel_of(None, white, m),
            goal == picture(tiles, w as int, h as int, white, m),
            pixmap_size(pixmap) == (w, h),
            pixmap_pixels(pixmap).len() == w * h,
            forall|i: int|
                0 <= i < w * h ==> #[trigger] pixmap_pixels(pixmap)[i] == (if i < y * w {
                    goal[i]
                } else {
                    blank
                }),
        decreases h - y,
    {
        proof {
            assert(y * w + w <= w * h) by (nonlinear_arith)
                requires
                    y + 1 <= h,
            ;
            assert(y * w >= 0) by (nonlinear_arith);
        }
        let row: usize = y as usize * w as usize;
        let mut x: u32 = 0;
        while x < w
            invariant
                x <= w,
                y < h,
                row == y * w,
                y * w + w <= w * h,
                surface.wf(),
                math.wf(),
                fits_pixmap(w, h),
                tiles == visible::<S>(surface.tiles()),
                m == math.answers(),
                blank == pixel_of(None, white, m),
                goal == picture(tiles, w as int, h as int, white, m),
                pixmap_size(pixmap) == (w, h),
                pixmap_pixels(pixmap).len() == w * h,
                forall|i: int|
                    0 <= i < w * h ==> #[trigger] pixmap_pixels(pixmap)[i] == (if i < row + x {
                        goal[i]
                    } else {
                        blank
                    }),
            decreases w - x,
        {
            let tx: u32 = x / 64;
            let ty: u32 = y / 64;
            let tile: Option<&TilePixels> = surface.tile_lookup(tx as i32, ty as i32);
            let start: u32 = x;
            while x < w && x - start < 64 && x / 64 == tx
                invariant
                    start <= x <= w,
                    x - start <= 64,
                    tx == start / 64,
                    ty == y / 64,
                    y < h,
                    row == y * w,
                    y * w + w <= w * h,
                    math.wf(),
                    fits_pixmap(w, h),
                    tiles == visible::<S>(surface.tiles()),
                    m == math.answers(),
                    blank == pixel_of(None, white, m),
                    goal == picture(tiles, w as int, h as int, white, m),
                    tile == (if tiles.contains_key((tx as i32, ty as i32)) {
                        Some(&tiles[(tx as i32, ty as i32)])
                    } else {
                        None
                    }),
                    pixmap_size(pixmap) == (w, h),
                    pixmap_pixels(pixmap).len() == w * h,
                    forall|i: int|
                        0 <= i < w * h ==> #[trigger] pixmap_pixels(pixmap)[i] == (if i < row
                            + x {
                            goal[i]
                        } else {
                            blank
                        }),
                decreases w - x,
            {
                proof {
                    lemma_pixel_number(w as int, x as int, y as int);
                }
                let i: usize = row + x as usize;
                match tile {
                    Some(t) => {
                        let p: [u16; 4] = t[(y % 64) as usize][(x % 64) as usize];
                        assert(Some(p) == shown_at(tiles, x as int, y as int));
                        let c: (u8, u8, u8, u8) = convert(p, white, math);
                        put_pixel(&mut pixmap, i, c);
                    },
                    None => {
                        assert(shown_at(tiles, x as int, y as int) is None);
                    },
                }
                x += 1;
            }
        }
        assert(y * w + w == (y + 1) * w) by (nonlinear_arith);
        y += 1;
    }
    assert(h * w == w * h) by (nonlinear_arith);
    assert(pixmap_pixels(pixmap) =~= goal);
    pixmap
}

/// A surface over white, as a pixmap without transparent pixels.
pub fn flatten_over_white<S: TiledSurface, N: Fn(Narrow) -> Single, W: Fn(Wide) -> Double>(
    surface: &S,
    width: u32,
    height: u32,
    math: &Elementary<N, W>,
) -> (r: tiny_skia::Pixmap)
    requires
        surface.wf(),
        math.wf(),
        fits_pixmap(width, height),
    ensures
        pixmap_size(r) == (width, height),
        pixmap_pixels(r) == picture(
            visible::<S>(surface.tiles()),
            width as int,
            height as int,
            true,
            math.answers(),
        ),
{
    flatten(surface, width, height, true, math)
}

/// A surface with its own alpha, as a pixmap.
pub fn flatten_transparent<S: TiledSurface, N: Fn(Narrow) -> Single, W: Fn(Wide) -> Double>(
    surface: &S,
    width: u32,
    height: u32,
    math: &Elementary<N, W>,
) -> (r: tiny_skia::Pixmap)
    requires
        surface.wf(),
        math.wf(),
        fits_pixmap(width, height),
    ensures
        pixmap_size(r) == (width, height),
        pixmap_pixels(r) == picture(
            visible::<S>(surface.tiles()),
            width as int,
            height as int,
            false,
            math.answers(),
        ),
{
    flatten(surface, width, height, false, math)
}

/// Over white every pixel is opaque, and white where nothing is painted;
/// otherwise a pixel where nothing is painted is transparent.
pub proof fn law_unpainted_is_white_or_transparent(
    tiles: Map<(i32, i32), TilePixels>,
    w: int,
    h: int,
    n: int,
    m: Answers,
)
    requires
        w > 0,
        0 <= n < w * h,
    ensures
        picture(tiles, w, h, true, m)[n].3 == 255,
        shown_at(tiles, n % w, n / w) is None ==> picture(tiles, w, h, true, m)[n] == (
            255u8,
            255u8,
            255u8,
            255u8,
        ) && picture(tiles, w, h, false, m)[n] == (0u8, 0u8, 0u8, 0u8),
{
}

/// Both ways to flatten a canvas over white give an opaque pixel the same
/// bytes, and white where nothing is painted.
pub proof fn law_flattenings_agree_where_opaque(p: Option<[u16; 4]>, m: Answers)
    requires
        p matches Some(q) ==> q@[3] == 32768 && q@[0] <= 32768 && q@[1] <= 32768 && q@[2] <= 32768,
    ensures
        pixel_of(p, true, m) == (
            byte_over_white(p, 0, m),
            byte_over_white(p, 1, m),
            byte_over_white(p, 2, m),
            byte_over_white(p, 3, m),
        ),
{
    if let Some(q) = p {
        lemma_whole_fraction();
        assert(!(Single { bits: ONE }).le(Single { bits: 0 })) by {
            lemma_one();
            lemma_magnitude_zero();
        }
        lemma_opaque_channel(q@[0], m);
        lemma_opaque_channel(q@[1], m);
        lemma_opaque_channel(q@[2], m);
    }
}

proof fn lemma_whole_fraction()
    ensures
        fraction(32768) == (Single { bits: ONE }),
{
    lemma_fraction_is_exact(32768);
    lemma_one();
    lemma_pow2_adds(134, 15);
    assert(pow2(15) == 32768) by {
        lemma2_to64();
    }
    let f = fraction(32768);
    if f.mag() < ONE {
        lemma_magnitude_increases(f.mag(), ONE as nat, 24);
    } else if f.mag() > ONE {
        lemma_magnitude_increases(ONE as nat, f.mag(), 24);
    }
}

proof fn lemma_opaque_channel(c: u16, m: Answers)
    requires
        c <= 32768,
    ensures
        ({
            let one = Single { bits: ONE };
            &&& fraction(c).over(one).times(one).plus(one.minus(one)) == fraction(c)
            &&& over_white(c, one, m) == byte_of(fraction(c), m)
        }),
{
    let one = Single { bits: ONE };
    let f = fraction(c);
    lemma_fraction_is_exact(c);
    lemma_one();
    lemma_magnitude_zero();
    law_minus_itself(one);
    law_over_one(f);
    law_times_one(f);
    law_plus_nothing(f);
    assert(unit(f) == f) by {
        lemma_pow2_adds(134, 15);
        assert(pow2(15) == 32768) by {
            lemma2_to64();
        }
        assert(c * pow2(134) <= 32768 * pow2(134)) by (nonlinear_arith)
            requires
                0 <= c <= 32768,
        ;
    }
}

} // verus!
