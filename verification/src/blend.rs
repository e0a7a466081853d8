//! How a dab changes one pixel, in each of the blend modes.
//!
//! Pixels are premultiplied fix15.  Every product and quotient is cut to an
//! integer where it is written.
use crate::color::{to_unit, unit};
use crate::fix15::{fraction, lemma_fraction_is_exact, FIX15_ONE};
use crate::range::{
    lemma_known, lemma_nearest_at_most, lemma_negate, lemma_no_units, lemma_one, lemma_plus_value,
    lemma_rounded_exact,
};
use crate::rounding::{lemma_scale_div, magnitude};
use crate::single::{
    lemma_infinity_units, lemma_nearest_exact, lemma_of_exact, saturate, Single, HALF, ONE,
};
use crate::spectral::{
    blended, law_clear_canvas_is_additive, mix_spectra, rgb_to_spectral, seen,
    spectral_blend_factor, spectral_share, spectral_to_rgb, spectrum,
};
use vstd::arithmetic::div_mod::*;
use vstd::arithmetic::mul::*;
use vstd::arithmetic::power2::*;
use vstd::prelude::*;

verus! {

/// A pixel, as mathematics.
#[verifier::ext_equal]
pub struct Rgba {
    pub r: int,
    pub g: int,
    pub b: int,
    pub a: int,
}

pub open spec fn rgba(p: [u16; 4]) -> Rgba {
    Rgba { r: p@[0] as int, g: p@[1] as int, b: p@[2] as int, a: p@[3] as int }
}

/// The straight colour of a dab, in fix15.
#[derive(Clone, Copy, Debug, PartialEq, Eq, Structural)]
pub struct Source {
    pub r: u32,
    pub g: u32,
    pub b: u32,
}

impl Source {
    pub open spec fn wf(self) -> bool {
        self.r <= FIX15_ONE && self.g <= FIX15_ONE && self.b <= FIX15_ONE
    }
}

/// How much of the source shows where a dab covers `mask`.
pub open spec fn shown(mask: int, opacity: int) -> int {
    mask * opacity / 32768
}

/// A channel of which `src` takes the share `over`, and what is there keeps
/// the share `under`.
pub open spec fn joined(src: int, over: int, dst: int, under: int) -> int {
    (over * src + under * dst) / 32768
}

/// The alpha that is left under a source.
pub open spec fn stacked(over: int, dst: int, under: int) -> int {
    over + under * dst / 32768
}

/// Plain painting: source over destination.
pub open spec fn normal(p: Rgba, mask: int, s: Source, opacity: int) -> Rgba {
    let over = shown(mask, opacity);
    let under = 32768 - over;
    Rgba {
        r: joined(s.r as int, over, p.r, under),
        g: joined(s.g as int, over, p.g, under),
        b: joined(s.b as int, over, p.b, under),
        a: stacked(over, p.a, under),
    }
}

/// Painting with a source of alpha `color_a`: the destination gives way as
/// to an opaque source, so a transparent source erases.
pub open spec fn normal_and_eraser(
    p: Rgba,
    mask: int,
    s: Source,
    color_a: int,
    opacity: int,
) -> Rgba {
    let cut = shown(mask, opacity);
    let over = cut * color_a / 32768;
    let under = 32768 - cut;
    Rgba {
        r: joined(s.r as int, over, p.r, under),
        g: joined(s.g as int, over, p.g, under),
        b: joined(s.b as int, over, p.b, under),
        a: stacked(over, p.a, under),
    }
}

/// Painting only where something is: the destination keeps its alpha.
pub open spec fn lock_alpha(p: Rgba, mask: int, s: Source, opacity: int) -> Rgba {
    let cut = shown(mask, opacity);
    let over = cut * p.a / 32768;
    let under = 32768 - cut;
    Rgba {
        r: joined(s.r as int, over, p.r, under),
        g: joined(s.g as int, over, p.g, under),
        b: joined(s.b as int, over, p.b, under),
        a: p.a,
    }
}

/// A channel moved to the nearest of `num` levels.
pub open spec fn level(c: int, num: int) -> int {
    32768 * ((c * num + 16384) / 32768) / num
}

/// Moving the destination towards `num` levels.
pub open spec fn posterize(p: Rgba, mask: int, opacity: int, num: int) -> Rgba {
    let over = shown(mask, opacity);
    let under = 32768 - over;
    Rgba {
        r: joined(level(p.r, num), over, p.r, under) % 65536,
        g: joined(level(p.g, num), over, p.g, under) % 65536,
        b: joined(level(p.b, num), over, p.b, under) % 65536,
        a: p.a,
    }
}

pub proof fn lemma_shown(mask: int, opacity: int)
    requires
        0 <= mask <= 32768,
        0 <= opacity <= 32768,
    ensures
        0 <= mask * opacity <= 0x4000_0000,
        0 <= shown(mask, opacity) <= 32768,
        shown(mask, opacity) <= mask,
        shown(mask, opacity) <= opacity,
{
    assert(0 <= mask * opacity <= 32768 * 32768 && mask * opacity <= mask * 32768 && mask * opacity
        <= 32768 * opacity) by (nonlinear_arith)
        requires
            0 <= mask <= 32768,
            0 <= opacity <= 32768,
    ;
}

/// A join of numbers up to `top` with shares that make up at most one is at
/// most `top`.
pub proof fn lemma_joined(src: int, over: int, dst: int, under: int, top: int)
    requires
        0 <= src <= top,
        0 <= dst <= top,
        0 <= over,
        0 <= under,
        over + under <= 32768,
    ensures
        0 <= over * src,
        0 <= under * dst,
        over * src + under * dst <= 32768 * top,
        0 <= joined(src, over, dst, under) <= top,
{
    assert(0 <= over * src <= over * top && 0 <= under * dst <= under * top && over * top + under
        * top <= 32768 * top) by (nonlinear_arith)
        requires
            0 <= src <= top,
            0 <= dst <= top,
            0 <= over,
            0 <= under,
            over + under <= 32768,
    ;
}

pub proof fn lemma_stacked(over: int, dst: int, under: int)
    requires
        0 <= dst <= 65535,
        0 <= over,
        0 <= under,
        over + under <= 32768,
    ensures
        0 <= under * dst <= 32768 * 65535,
        0 <= stacked(over, dst, under) <= 65535,
        dst <= 32768 ==> stacked(over, dst, under) <= 32768,
{
    assert(0 <= under * dst <= under * 65535 && (dst <= 32768 ==> under * dst <= under * 32768))
        by (nonlinear_arith)
        requires
            0 <= dst <= 65535,
            0 <= under,
    ;
}

/// `(over * src + under * dst) / 2^15`.
fn join(src: u32, over: u32, dst: u32, under: u32) -> (r: u16)
    requires
        src <= 65535,
        dst <= 65535,
        over + under <= 32768,
    ensures
        r == joined(src as int, over as int, dst as int, under as int),
{
    proof {
        lemma_joined(src as int, over as int, dst as int, under as int, 65535);
    }
    ((over * src + under * dst) / FIX15_ONE) as u16
}

/// Source over destination.
pub fn normal_pixel(p: [u16; 4], mask: u32, s: Source, opacity: u32) -> (q: [u16; 4])
    requires
        mask <= FIX15_ONE,
        opacity <= FIX15_ONE,
        s.wf(),
    ensures
        rgba(q) == normal(rgba(p), mask as int, s, opacity as int),
{
    proof {
        lemma_shown(mask as int, opacity as int);
    }
    let over: u32 = mask * opacity / FIX15_ONE;
    let under: u32 = FIX15_ONE - over;
    proof {
        lemma_stacked(over as int, p@[3] as int, under as int);
    }
    let a: u32 = over + under * p[3] as u32 / FIX15_ONE;
    [
        join(s.r, over, p[0] as u32, under),
        join(s.g, over, p[1] as u32, under),
        join(s.b, over, p[2] as u32, under),
        a as u16,
    ]
}

/// Source over destination, erasing where the source is transparent.
pub fn normal_and_eraser_pixel(
    p: [u16; 4],
    mask: u32,
    s: Source,
    color_a: u32,
    opacity: u32,
) -> (q: [u16; 4])
    requires
        mask <= FIX15_ONE,
        opacity <= FIX15_ONE,
        color_a <= FIX15_ONE,
        s.wf(),
    ensures
        rgba(q) == normal_and_eraser(rgba(p), mask as int, s, color_a as int, opacity as int),
{
    proof {
        lemma_shown(mask as int, opacity as int);
    }
    let cut: u32 = mask * opacity / FIX15_ONE;
    proof {
        lemma_shown(cut as int, color_a as int);
    }
    let over: u32 = cut * color_a / FIX15_ONE;
    let under: u32 = FIX15_ONE - cut;
    proof {
        lemma_stacked(over as int, p@[3] as int, under as int);
    }
    let a: u32 = over + under * p[3] as u32 / FIX15_ONE;
    [
        join(s.r, over, p[0] as u32, under),
        join(s.g, over, p[1] as u32, under),
        join(s.b, over, p[2] as u32, under),
        a as u16,
    ]
}

pub proof fn lemma_locked(cut: int, alpha: int, src: int, dst: int)
    requires
        0 <= cut <= 32768,
        0 <= alpha <= 65535,
        0 <= src <= 32768,
        0 <= dst <= 65535,
    ensures
        0 <= cut * alpha <= 32768 * 65535,
        ({
            let over = cut * alpha / 32768;
            let under = 32768 - cut;
            &&& 0 <= over <= 65535
            &&& 0 <= over * src
            &&& 0 <= under * dst
            &&& over * src + under * dst <= 32768 * 65535
            &&& 0 <= joined(src, over, dst, under) <= 65535
            &&& 0 <= under * alpha
            &&& 0 <= stacked(over, alpha, under) <= alpha
        }),
{
    let over = cut * alpha / 32768;
    let under = 32768 - cut;
    assert(0 <= cut * alpha <= cut * 65535 && cut * 65535 <= 32768 * 65535) by (nonlinear_arith)
        requires
            0 <= cut <= 32768,
            0 <= alpha <= 65535,
    ;
    assert(0 <= under * alpha && cut * alpha + under * alpha == 32768 * alpha) by (nonlinear_arith)
        requires
            under == 32768 - cut,
            0 <= under,
            0 <= alpha,
    ;
    assert(cut == 0 ==> over == 0);
    assert(cut >= 1 ==> over <= 2 * cut - 1);
    assert(0 <= over * src <= over * 32768 && 0 <= under * dst <= under * 65535) by (nonlinear_arith)
        requires
            0 <= over,
            0 <= src <= 32768,
            0 <= under,
            0 <= dst <= 65535,
    ;
}

/// Source into destination, which keeps its alpha.
pub fn lock_alpha_pixel(p: [u16; 4], mask: u32, s: Source, opacity: u32) -> (q: [u16; 4])
    requires
        mask <= FIX15_ONE,
        opacity <= FIX15_ONE,
        s.wf(),
    ensures
        rgba(q) == lock_alpha(rgba(p), mask as int, s, opacity as int),
{
    proof {
        lemma_shown(mask as int, opacity as int);
    }
    let cut: u32 = mask * opacity / FIX15_ONE;
    let under: u32 = FIX15_ONE - cut;
    proof {
        lemma_locked(cut as int, p@[3] as int, s.r as int, p@[0] as int);
        lemma_locked(cut as int, p@[3] as int, s.g as int, p@[1] as int);
        lemma_locked(cut as int, p@[3] as int, s.b as int, p@[2] as int);
    }
    let over: u32 = cut * p[3] as u32 / FIX15_ONE;
    [
        ((over * s.r + under * p[0] as u32) / FIX15_ONE) as u16,
        ((over * s.g + under * p[1] as u32) / FIX15_ONE) as u16,
        ((over * s.b + under * p[2] as u32) / FIX15_ONE) as u16,
        p[3],
    ]
}

fn posterize_channel(c: u16, over: u32, num: u32) -> (r: u16)
    requires
        over <= 32768,
        1 <= num <= 128,
    ensures
        r == joined(level(c as int, num as int), over as int, c as int, 32768 - over) % 65536,
{
    proof {
        assert(0 <= c * num <= 65535 * num) by (nonlinear_arith)
            requires
                0 <= c <= 65535,
                num >= 1,
        ;
    }
    let steps: u32 = (c as u32 * num + 16384) / FIX15_ONE;
    let to: u32 = FIX15_ONE * steps / num;
    proof {
        assert(steps <= 2 * num) by {
            assert(65535 * num + 16384 < 32768 * (2 * num + 1));
        }
        assert(to <= 65536) by (nonlinear_arith)
            requires
                to == (32768 * steps) as int / (num as int),
                steps <= 2 * num,
                num >= 1,
        ;
        lemma_joined(to as int, over as int, c as int, 32768 - over, 65536);
    }
    let under: u32 = FIX15_ONE - over;
    (((over * to + under * c as u32) / FIX15_ONE) % 65536) as u16
}

/// Destination towards `num` levels.
pub fn posterize_pixel(p: [u16; 4], mask: u32, opacity: u32, num: u32) -> (q: [u16; 4])
    requires
        mask <= FIX15_ONE,
        opacity <= FIX15_ONE,
        1 <= num <= 128,
    ensures
        rgba(q) == posterize(rgba(p), mask as int, opacity as int, num as int),
{
    proof {
        lemma_shown(mask as int, opacity as int);
    }
    let over: u32 = mask * opacity / FIX15_ONE;
    [
        posterize_channel(p[0], over, num),
        posterize_channel(p[1], over, num),
        posterize_channel(p[2], over, num),
        p[3],
    ]
}

/// The weights of the channels in luminance, scaled by 2^15.
pub const LUMA_RED: u32 = 0x45d9_b3d0;

pub const LUMA_GREEN: u32 = 0x46b7_1759;

pub const LUMA_BLUE: u32 = 0x4513_dd98;

/// The pattern of 32768.0.
pub const SCALE: u32 = 0x4700_0000;

/// The luminance of a colour.
pub open spec fn luminance(r: int, g: int, b: int) -> Single {
    Single::of(r).times_spec(Single { bits: LUMA_RED }).plus_spec(
        Single::of(g).times_spec(Single { bits: LUMA_GREEN }),
    ).plus_spec(Single::of(b).times_spec(Single { bits: LUMA_BLUE })).over_spec(
        Single { bits: SCALE },
    )
}

fn luma(r: i32, g: i32, b: i32) -> (l: Single)
    ensures
        l == luminance(r as int, g as int, b as int),
{
    Single::from_i32(r).times(Single { bits: LUMA_RED }).plus(
        Single::from_i32(g).times(Single { bits: LUMA_GREEN }),
    ).plus(Single::from_i32(b).times(Single { bits: LUMA_BLUE })).over(Single { bits: SCALE })
}

/// `n / d` cut towards zero, for a positive `d`.
pub open spec fn cut_quotient(n: int, d: int) -> int {
    if n >= 0 {
        n / d
    } else {
        -(-n / d)
    }
}

fn divide(n: i64, d: i64) -> (q: i64)
    requires
        d > 0,
        n > i64::MIN,
    ensures
        q == cut_quotient(n as int, d as int),
{
    if n >= 0 {
        n / d
    } else {
        -(-n / d)
    }
}

/// A channel brought nearer to the luminance, so that a distance of `from`
/// becomes one of `to`.
pub open spec fn clipped(c: int, lum: int, to: int, from: int) -> int {
    lum + cut_quotient((c - lum) * to, from)
}

fn clip(c: i64, lum: i64, to: i64, from: i64) -> (r: i64)
    requires
        -0x4_0000 <= c <= 0x4_0000,
        0 <= lum <= 32768,
        0 <= to <= 32768,
        to <= from,
        from > 0,
    ensures
        r == clipped(c as int, lum as int, to as int, from as int),
        c <= r <= lum || lum <= r <= c,
{
    proof {
        let d = c - lum;
        assert(-0x10_0000 * 32768 <= d * to <= 0x10_0000 * 32768) by (nonlinear_arith)
            requires
                0 <= to <= 32768,
                -0x10_0000 <= d <= 0x10_0000,
        ;
        lemma_cut_within(d, to as int, from as int);
    }
    lum + divide((c - lum) * to, from)
}

/// The least of three.
pub open spec fn least(a: int, b: int, c: int) -> int {
    if a <= b && a <= c {
        a
    } else if b <= c {
        b
    } else {
        c
    }
}

/// The greatest of three.
pub open spec fn greatest(a: int, b: int, c: int) -> int {
    if a >= b && a >= c {
        a
    } else if b >= c {
        b
    } else {
        c
    }
}

/// A channel of a colour whose luminance is `lum`, brought back into range
/// where the least channel lies below zero or the greatest above one.
pub open spec fn in_gamut(c: int, lum: int, low: int, high: int) -> int {
    let raised = if low < 0 {
        clipped(c, lum, lum, lum - low)
    } else {
        c
    };
    if high > 32768 {
        clipped(raised, lum, 32768 - lum, high - lum)
    } else {
        raised
    }
}

fn to_gamut(c: i64, lum: i64, low: i64, high: i64) -> (r: u16)
    requires
        -0x2_0000 <= low <= c <= high <= 0x2_0000,
        0 <= lum <= 32768,
    ensures
        r == in_gamut(c as int, lum as int, low as int, high as int),
        r <= 32768,
{
    proof {
        law_clipping_ends_in_gamut(c as int, lum as int, low as int, high as int);
    }
    let raised: i64 = if low < 0 {
        clip(c, lum, lum, lum - low)
    } else {
        c
    };
    let lowered: i64 = if high > 32768 {
        clip(raised, lum, 32768 - lum, high - lum)
    } else {
        raised
    };
    lowered as u16
}

/// The luminance of a colour, cut to an integer and held to the range.
pub open spec fn held_luminance(r: int, g: int, b: int) -> int {
    saturate(luminance(r, g, b).to_i32_spec() as int, 0, 32768)
}

/// The colour `s` given the luminance of another colour.
pub open spec fn with_luminance(s: Source, r: int, g: int, b: int) -> (int, int, int) {
    let diff = luminance(r, g, b).to_u16_spec() - luminance(
        s.r as int,
        s.g as int,
        s.b as int,
    ).to_u16_spec();
    let (r1, g1, b1) = (s.r + diff, s.g + diff, s.b + diff);
    let lum = held_luminance(r1, g1, b1);
    let low = least(r1, g1, b1);
    let high = greatest(r1, g1, b1);
    (in_gamut(r1, lum, low, high), in_gamut(g1, lum, low, high), in_gamut(b1, lum, low, high))
}

/// Gives the colour of `s` the luminance of `(r, g, b)`, keeping its hue and
/// as much of its chroma as the range allows.
pub fn set_rgb16_lum_from_rgb16(s: Source, r: u16, g: u16, b: u16) -> (c: (u16, u16, u16))
    requires
        s.wf(),
    ensures
        (c.0 as int, c.1 as int, c.2 as int) == with_luminance(s, r as int, g as int, b as int),
        c.0 <= 32768 && c.1 <= 32768 && c.2 <= 32768,
{
    let bottom: u16 = luma(r as i32, g as i32, b as i32).to_u16();
    let top: u16 = luma(s.r as i32, s.g as i32, s.b as i32).to_u16();
    let diff: i32 = bottom as i32 - top as i32;
    let r1: i32 = s.r as i32 + diff;
    let g1: i32 = s.g as i32 + diff;
    let b1: i32 = s.b as i32 + diff;
    let cut: i32 = luma(r1, g1, b1).to_i32();
    let lum: i64 = if cut < 0 {
        0
    } else if cut > 32768 {
        32768
    } else {
        cut as i64
    };
    let low: i32 = if r1 <= g1 && r1 <= b1 {
        r1
    } else if g1 <= b1 {
        g1
    } else {
        b1
    };
    let high: i32 = if r1 >= g1 && r1 >= b1 {
        r1
    } else if g1 >= b1 {
        g1
    } else {
        b1
    };
    (
        to_gamut(r1 as i64, lum, low as i64, high as i64),
        to_gamut(g1 as i64, lum, low as i64, high as i64),
        to_gamut(b1 as i64, lum, low as i64, high as i64),
    )
}

/// A channel without its alpha, or zero where there is none.
pub open spec fn straight(c: int, a: int) -> int {
    if a == 0 {
        0
    } else {
        (32768 * c / a) % 65536
    }
}

/// Colouring: the destination takes the colour of the source and keeps its
/// luminance and alpha.
pub open spec fn colorize(p: Rgba, mask: int, s: Source, opacity: int) -> Rgba {
    let over = shown(mask, opacity);
    let under = 32768 - over;
    let c = with_luminance(s, straight(p.r, p.a), straight(p.g, p.a), straight(p.b, p.a));
    Rgba {
        r: joined(c.0 * p.a / 32768, over, p.r, under) % 65536,
        g: joined(c.1 * p.a / 32768, over, p.g, under) % 65536,
        b: joined(c.2 * p.a / 32768, over, p.b, under) % 65536,
        a: p.a,
    }
}

fn straighten(c: u16, a: u16) -> (r: u16)
    ensures
        r == straight(c as int, a as int),
{
    if a == 0 {
        0
    } else {
        ((FIX15_ONE * c as u32 / a as u32) % 65536) as u16
    }
}

fn colorize_channel(c: u16, to: u16, alpha: u16, over: u32) -> (r: u16)
    requires
        over <= 32768,
    ensures
        r == joined(to * alpha / 32768, over as int, c as int, 32768 - over) % 65536,
{
    proof {
        assert(0 <= to * alpha <= 65535 * 65535) by (nonlinear_arith)
            requires
                0 <= to <= 65535,
                0 <= alpha <= 65535,
        ;
    }
    let target: u32 = to as u32 * alpha as u32 / FIX15_ONE;
    proof {
        lemma_joined(target as int, over as int, c as int, 32768 - over, 131068);
    }
    let under: u32 = FIX15_ONE - over;
    (((over * target + under * c as u32) / FIX15_ONE) % 65536) as u16
}

/// Destination in the colour of the source.
pub fn colorize_pixel(p: [u16; 4], mask: u32, s: Source, opacity: u32) -> (q: [u16; 4])
    requires
        mask <= FIX15_ONE,
        opacity <= FIX15_ONE,
        s.wf(),
    ensures
        rgba(q) == colorize(rgba(p), mask as int, s, opacity as int),
{
    let a: u16 = p[3];
    let (r, g, b): (u16, u16, u16) = set_rgb16_lum_from_rgb16(
        s,
        straighten(p[0], a),
        straighten(p[1], a),
        straighten(p[2], a),
    );
    proof {
        lemma_shown(mask as int, opacity as int);
    }
    let over: u32 = mask * opacity / FIX15_ONE;
    [
        colorize_channel(p[0], r, a, over),
        colorize_channel(p[1], g, a, over),
        colorize_channel(p[2], b, a, over),
        a,
    ]
}

/// The spectrum of a source.
pub open spec fn source_spectrum(s: Source) -> Seq<Single> {
    let one = Single { bits: SCALE };
    spectrum(
        Single::of(s.r as int).over_spec(one),
        Single::of(s.g as int).over_spec(one),
        Single::of(s.b as int).over_spec(one),
    )
}

pub fn spectrum_of_source(s: Source) -> (r: [Single; 10])
    ensures
        r@ == source_spectrum(s),
{
    let one = Single { bits: SCALE };
    rgb_to_spectral(
        Single::from_u32(s.r).over(one),
        Single::from_u32(s.g).over(one),
        Single::from_u32(s.b).over(one),
    )
}

/// The spectrum of what is painted at a pixel.
pub open spec fn pixel_spectrum(p: Rgba) -> Seq<Single> {
    let a = Single::of(p.a);
    spectrum(
        Single::of(p.r).over_spec(a),
        Single::of(p.g).over_spec(a),
        Single::of(p.b).over_spec(a),
    )
}

fn spectrum_of_pixel(p: [u16; 4]) -> (r: [Single; 10])
    ensures
        r@ == pixel_spectrum(rgba(p)),
{
    let a = Single::from_u32(p[3] as u32);
    rgb_to_spectral(
        Single::from_u32(p[0] as u32).over(a),
        Single::from_u32(p[1] as u32).over(a),
        Single::from_u32(p[2] as u32).over(a),
    )
}

/// The share of the source in a mix: `over` of all the alpha there is.
pub open spec fn source_share(over: int, left: int) -> Single {
    Single::of(over).over_spec(Single::of(left))
}

/// The colour of source and destination mixed as pigments.
pub open spec fn pigment(bands: Seq<Single>, p: Rgba, share: Single) -> (Single, Single, Single) {
    seen(blended(bands, pixel_spectrum(p), share, (Single { bits: ONE }).minus_spec(share)))
}

fn mix_pigment(bands: &[Single; 10], p: [u16; 4], share: Single) -> (r: (Single, Single, Single))
    ensures
        r == pigment(bands@, rgba(p), share),
{
    let below = spectrum_of_pixel(p);
    spectral_to_rgb(&mix_spectra(bands, &below, share, (Single { bits: ONE }).minus(share)))
}

/// A straight channel with alpha, rounded to an integer.
pub open spec fn loaded(c: Single, alpha: int) -> int {
    c.times_spec(Single::of(alpha)).plus_spec(Single { bits: HALF }).to_u16_spec() as int
}

fn load(c: Single, alpha: u32) -> (r: u16)
    ensures
        r == loaded(c, alpha as int),
{
    c.times(Single::from_u32(alpha)).plus(Single { bits: HALF }).to_u16()
}

/// The least opacity that pigments are mixed with.
pub const LEAST_PIGMENT: u32 = 150;

/// An opacity that is not too low for pigments.
pub open spec fn pigment_opacity(opacity: int) -> int {
    if opacity < 150 {
        150
    } else {
        opacity
    }
}

pub fn at_least_pigment(opacity: u32) -> (r: u32)
    ensures
        r == pigment_opacity(opacity as int),
{
    if opacity < LEAST_PIGMENT {
        LEAST_PIGMENT
    } else {
        opacity
    }
}

/// Painting with pigment: like [`normal`] where nothing is, else source and
/// destination mix spectrally.
pub open spec fn normal_paint(
    p: Rgba,
    mask: int,
    s: Source,
    bands: Seq<Single>,
    opacity: int,
) -> Rgba {
    let over = shown(mask, pigment_opacity(opacity));
    let under = 32768 - over;
    let alpha = stacked(over, p.a, under);
    if p.a == 0 {
        normal(p, mask, s, pigment_opacity(opacity))
    } else {
        let c = pigment(bands, p, source_share(over, alpha));
        Rgba { r: loaded(c.0, alpha), g: loaded(c.1, alpha), b: loaded(c.2, alpha), a: alpha }
    }
}

/// Source and destination mixed as pigments.
pub fn normal_paint_pixel(
    p: [u16; 4],
    mask: u32,
    s: Source,
    bands: &[Single; 10],
    opacity: u32,
) -> (q: [u16; 4])
    requires
        mask <= FIX15_ONE,
        opacity <= FIX15_ONE,
        s.wf(),
    ensures
        rgba(q) == normal_paint(rgba(p), mask as int, s, bands@, opacity as int),
{
    let opacity: u32 = at_least_pigment(opacity);
    if p[3] == 0 {
        return normal_pixel(p, mask, s, opacity);
    }
    proof {
        lemma_shown(mask as int, opacity as int);
    }
    let over: u32 = mask * opacity / FIX15_ONE;
    let under: u32 = FIX15_ONE - over;
    proof {
        lemma_stacked(over as int, p@[3] as int, under as int);
    }
    let alpha: u32 = over + under * p[3] as u32 / FIX15_ONE;
    let share = Single::from_u32(over).over(Single::from_u32(alpha));
    let (r, g, b): (Single, Single, Single) = mix_pigment(bands, p, share);
    [load(r, alpha), load(g, alpha), load(b, alpha), alpha as u16]
}

/// Painting with pigment only where something is.  The alpha of the result
/// is what covering the destination with its own alpha gives.
pub open spec fn lock_alpha_paint(
    p: Rgba,
    mask: int,
    s: Source,
    bands: Seq<Single>,
    opacity: int,
) -> Rgba {
    let cut = shown(mask, pigment_opacity(opacity));
    let over = cut * p.a / 32768;
    let under = 32768 - cut;
    let alpha = stacked(over, p.a, under);
    if p.a == 0 {
        lock_alpha(p, mask, s, pigment_opacity(opacity))
    } else {
        let c = pigment(bands, p, source_share(over, alpha));
        Rgba {
            r: loaded(c.0, alpha),
            g: loaded(c.1, alpha),
            b: loaded(c.2, alpha),
            a: alpha,
        }
    }
}

/// Source mixed as pigment into destination.
pub fn lock_alpha_paint_pixel(
    p: [u16; 4],
    mask: u32,
    s: Source,
    bands: &[Single; 10],
    opacity: u32,
) -> (q: [u16; 4])
    requires
        mask <= FIX15_ONE,
        opacity <= FIX15_ONE,
        s.wf(),
    ensures
        rgba(q) == lock_alpha_paint(rgba(p), mask as int, s, bands@, opacity as int),
{
    let opacity: u32 = at_least_pigment(opacity);
    if p[3] == 0 {
        return lock_alpha_pixel(p, mask, s, opacity);
    }
    proof {
        lemma_shown(mask as int, opacity as int);
    }
    let cut: u32 = mask * opacity / FIX15_ONE;
    let under: u32 = FIX15_ONE - cut;
    proof {
        lemma_locked(cut as int, p@[3] as int, 0, p@[3] as int);
    }
    let over: u32 = cut * p[3] as u32 / FIX15_ONE;
    let alpha: u32 = over + under * p[3] as u32 / FIX15_ONE;
    let share = Single::from_u32(over).over(Single::from_u32(alpha));
    let (r, g, b): (Single, Single, Single) = mix_pigment(bands, p, share);
    [load(r, alpha), load(g, alpha), load(b, alpha), alpha as u16]
}

/// A channel that is spectral as far as `share` goes and additive for the
/// rest, cut to an integer.
pub open spec fn faded(additive: int, spectral: Single, share: Single, alpha: int) -> int {
    (Single { bits: ONE }).minus_spec(share).times_spec(Single::of(additive)).plus_spec(
        share.times_spec(spectral).times_spec(Single::of(alpha)),
    ).to_u32_spec() as int % 65536
}

fn fade(additive: u32, spectral: Single, share: Single, alpha: u32) -> (r: u16)
    ensures
        r == faded(additive as int, spectral, share, alpha as int),
{
    let v: u32 = (Single { bits: ONE }).minus(share).times(Single::from_u32(additive)).plus(
        share.times(spectral).times(Single::from_u32(alpha)),
    ).to_u32();
    (v % 65536) as u16
}

/// How far painting with pigment at a pixel is spectral.
pub open spec fn pigment_share(p: Rgba) -> Single {
    unit(spectral_share(Single::of(p.a).over_spec(Single { bits: SCALE })))
}

/// Painting with pigment of alpha `color_a`: additive on a thin canvas,
/// spectral on a dense one.
pub open spec fn normal_and_eraser_paint(
    p: Rgba,
    mask: int,
    s: Source,
    bands: Seq<Single>,
    color_a: int,
    opacity: int,
) -> Rgba {
    let zero = Single { bits: 0 };
    let cut = shown(mask, opacity);
    let over = cut * color_a / 32768;
    let under = 32768 - cut;
    let alpha = stacked(over, p.a, under);
    let share = pigment_share(p);
    let rest = (Single { bits: ONE }).minus_spec(share);
    let (r, g, b) = if rest.same_spec(zero) {
        (0, 0, 0)
    } else {
        (
            joined(s.r as int, over, p.r, under),
            joined(s.g as int, over, p.g, under),
            joined(s.b as int, over, p.b, under),
        )
    };
    if share.same_spec(zero) || p.a == 0 {
        Rgba { r, g, b, a: alpha }
    } else {
        let part = source_share(cut, stacked(cut, p.a, under)).times_spec(
            Single::of(color_a).over_spec(Single { bits: SCALE }),
        );
        let c = pigment(bands, p, part);
        Rgba {
            r: faded(r, c.0, share, alpha),
            g: faded(g, c.1, share, alpha),
            b: faded(b, c.2, share, alpha),
            a: alpha,
        }
    }
}

/// Source mixed as pigment over destination, erasing where the source is
/// transparent.
pub fn normal_and_eraser_paint_pixel(
    p: [u16; 4],
    mask: u32,
    s: Source,
    bands: &[Single; 10],
    color_a: u32,
    opacity: u32,
) -> (q: [u16; 4])
    requires
        mask <= FIX15_ONE,
        opacity <= FIX15_ONE,
        color_a <= FIX15_ONE,
        s.wf(),
    ensures
        rgba(q) == normal_and_eraser_paint(
            rgba(p),
            mask as int,
            s,
            bands@,
            color_a as int,
            opacity as int,
        ),
{
    let zero = Single { bits: 0 };
    proof {
        lemma_shown(mask as int, opacity as int);
    }
    let cut: u32 = mask * opacity / FIX15_ONE;
    proof {
        lemma_shown(cut as int, color_a as int);
    }
    let over: u32 = cut * color_a / FIX15_ONE;
    let under: u32 = FIX15_ONE - cut;
    proof {
        lemma_stacked(over as int, p@[3] as int, under as int);
        lemma_stacked(cut as int, p@[3] as int, under as int);
    }
    let kept: u32 = under * p[3] as u32 / FIX15_ONE;
    let alpha: u32 = over + kept;
    let share = to_unit(
        spectral_blend_factor(Single::from_u32(p[3] as u32).over(Single { bits: SCALE })),
    );
    let rest = (Single { bits: ONE }).minus(share);
    let (r, g, b): (u16, u16, u16) = if rest.same(zero) {
        (0, 0, 0)
    } else {
        (
            join(s.r, over, p[0] as u32, under),
            join(s.g, over, p[1] as u32, under),
            join(s.b, over, p[2] as u32, under),
        )
    };
    if share.same(zero) || p[3] == 0 {
        return [r, g, b, alpha as u16];
    }
    let part = Single::from_u32(cut).over(Single::from_u32(cut + kept)).times(
        Single::from_u32(color_a).over(Single { bits: SCALE }),
    );
    let c: (Single, Single, Single) = mix_pigment(bands, p, part);
    [
        fade(r as u32, c.0, share, alpha),
        fade(g as u32, c.1, share, alpha),
        fade(b as u32, c.2, share, alpha),
        alpha as u16,
    ]
}

/// Channels that alpha covers, and alpha of at most one.
pub open spec fn premultiplied(p: Rgba) -> bool {
    &&& 0 <= p.r <= p.a
    &&& 0 <= p.g <= p.a
    &&& 0 <= p.b <= p.a
    &&& p.a <= 32768
}

/// The mask and the opacities that a dab can have.
pub open spec fn fits(mask: int, opacity: int) -> bool {
    0 <= mask <= 32768 && 0 <= opacity <= 32768
}

/// Where nothing of a dab shows, no mode changes the pixel.
pub proof fn law_nothing_shown_changes_nothing(
    p: [u16; 4],
    mask: int,
    s: Source,
    opacity: int,
    color_a: int,
    num: int,
)
    requires
        s.wf(),
        shown(mask, opacity) == 0,
        1 <= num <= 128,
    ensures
        normal(rgba(p), mask, s, opacity) == rgba(p),
        normal_and_eraser(rgba(p), mask, s, color_a, opacity) == rgba(p),
        lock_alpha(rgba(p), mask, s, opacity) == rgba(p),
        posterize(rgba(p), mask, opacity, num) == rgba(p),
        colorize(rgba(p), mask, s, opacity) == rgba(p),
{
    assert(0 * color_a == 0 && 0 * p@[3] == 0) by (nonlinear_arith);
    assert forall|src: int, dst: int| 0 <= dst <= 65535 implies #[trigger] joined(src, 0, dst, 32768)
        == dst by {
        assert(0 * src == 0) by (nonlinear_arith);
    }
}

/// Where a dab shows fully, plain painting leaves its colour and full alpha.
pub proof fn law_full_dab_replaces(p: [u16; 4], mask: int, s: Source, opacity: int)
    requires
        s.wf(),
        shown(mask, opacity) == 32768,
    ensures
        normal(rgba(p), mask, s, opacity) == (Rgba {
            r: s.r as int,
            g: s.g as int,
            b: s.b as int,
            a: 32768,
        }),
{
    assert forall|src: int, dst: int| #[trigger] joined(src, 32768, dst, 0) == src by {
        assert(0 * dst == 0) by (nonlinear_arith);
    }
}

/// An opaque source makes the erasing mode the plain one.
pub proof fn law_opaque_source_does_not_erase(p: Rgba, mask: int, s: Source, opacity: int)
    ensures
        normal_and_eraser(p, mask, s, 32768, opacity) == normal(p, mask, s, opacity),
{
    assert(shown(mask, opacity) * 32768 / 32768 == shown(mask, opacity));
}

proof fn lemma_under_alpha(src: int, over: int, dst: int, under: int, alpha: int)
    requires
        0 <= src <= 32768,
        0 <= over,
        0 <= under,
        0 <= dst <= alpha,
    ensures
        0 <= joined(src, over, dst, under) <= over + under * alpha / 32768,
{
    assert(0 <= over * src <= over * 32768 && 0 <= under * dst <= under * alpha) by (nonlinear_arith)
        requires
            0 <= src <= 32768,
            0 <= over,
            0 <= under,
            0 <= dst <= alpha,
    ;
}

/// Painting, erasing and painting with locked alpha keep pixels
/// premultiplied.
pub proof fn law_pixels_stay_premultiplied(
    p: Rgba,
    mask: int,
    s: Source,
    color_a: int,
    opacity: int,
)
    requires
        premultiplied(p),
        s.wf(),
        fits(mask, opacity),
        0 <= color_a <= 32768,
    ensures
        premultiplied(normal(p, mask, s, opacity)),
        premultiplied(normal_and_eraser(p, mask, s, color_a, opacity)),
        premultiplied(lock_alpha(p, mask, s, opacity)),
{
    lemma_shown(mask, opacity);
    let cut = shown(mask, opacity);
    let under = 32768 - cut;
    lemma_shown(cut, color_a);
    let over = cut * color_a / 32768;
    lemma_stacked(cut, p.a, under);
    lemma_stacked(over, p.a, under);
    lemma_under_alpha(s.r as int, cut, p.r, under, p.a);
    lemma_under_alpha(s.g as int, cut, p.g, under, p.a);
    lemma_under_alpha(s.b as int, cut, p.b, under, p.a);
    lemma_under_alpha(s.r as int, over, p.r, under, p.a);
    lemma_under_alpha(s.g as int, over, p.g, under, p.a);
    lemma_under_alpha(s.b as int, over, p.b, under, p.a);
    lemma_locked(cut, p.a, s.r as int, p.r);
    let locked = cut * p.a / 32768;
    lemma_under_alpha(s.r as int, locked, p.r, under, p.a);
    lemma_under_alpha(s.g as int, locked, p.g, under, p.a);
    lemma_under_alpha(s.b as int, locked, p.b, under, p.a);
}

/// A transparent source never raises alpha, and where it shows fully it
/// leaves nothing.
pub proof fn law_eraser_removes(p: Rgba, mask: int, s: Source, opacity: int)
    requires
        premultiplied(p),
        fits(mask, opacity),
    ensures
        normal_and_eraser(p, mask, s, 0, opacity).a <= p.a,
        normal_and_eraser(p, mask, s, 0, opacity).r <= p.r,
        normal_and_eraser(p, mask, s, 0, opacity).g <= p.g,
        normal_and_eraser(p, mask, s, 0, opacity).b <= p.b,
        shown(mask, opacity) == 32768 ==> normal_and_eraser(p, mask, s, 0, opacity) == (Rgba {
            r: 0,
            g: 0,
            b: 0,
            a: 0,
        }),
{
    lemma_shown(mask, opacity);
    let under = 32768 - shown(mask, opacity);
    assert forall|dst: int| 0 <= dst implies 0 <= #[trigger] (under * dst) <= 32768 * dst by {
        assert(0 <= under * dst <= 32768 * dst) by (nonlinear_arith)
            requires
                0 <= under <= 32768,
                0 <= dst,
        ;
    }
    assert(shown(mask, opacity) * 0 == 0);
    assert(0 * s.r == 0 && 0 * s.g == 0 && 0 * s.b == 0) by (nonlinear_arith);
    assert(under == 0 ==> under * p.a == 0 && under * p.r == 0 && under * p.g == 0 && under * p.b
        == 0) by (nonlinear_arith);
}

/// Locked alpha is kept, and what is transparent stays so.
pub proof fn law_locked_alpha_is_kept(p: Rgba, mask: int, s: Source, opacity: int)
    ensures
        lock_alpha(p, mask, s, opacity).a == p.a,
        p == (Rgba { r: 0, g: 0, b: 0, a: 0 }) ==> lock_alpha(p, mask, s, opacity) == p,
{
    let under = 32768 - shown(mask, opacity);
    assert(shown(mask, opacity) * 0 == 0 && under * 0 == 0);
    assert(0 * s.r == 0 && 0 * s.g == 0 && 0 * s.b == 0) by (nonlinear_arith);
}

/// Painting pigment with locked alpha loses at most one step of alpha, to
/// rounding.
pub proof fn law_locked_pigment_loses_at_most_one_step(
    p: Rgba,
    mask: int,
    s: Source,
    bands: Seq<Single>,
    opacity: int,
)
    requires
        premultiplied(p),
        fits(mask, opacity),
    ensures
        p.a - 1 <= lock_alpha_paint(p, mask, s, bands, opacity).a <= p.a,
{
    lemma_shown(mask, pigment_opacity(opacity));
    let cut = shown(mask, pigment_opacity(opacity));
    let under = 32768 - cut;
    lemma_locked(cut, p.a, 0, 0);
    assert(cut * p.a + under * p.a == 32768 * p.a) by (nonlinear_arith)
        requires
            under == 32768 - cut,
    ;
}

/// Painting with pigment that may erase gives every pixel the alpha that plain
/// painting and erasing gives it, and a clear pixel the same colour too.
pub proof fn law_pigment_erases_as_plain_paint(
    p: Rgba,
    mask: int,
    s: Source,
    bands: Seq<Single>,
    color_a: int,
    opacity: int,
)
    ensures
        normal_and_eraser_paint(p, mask, s, bands, color_a, opacity).a == normal_and_eraser(
            p,
            mask,
            s,
            color_a,
            opacity,
        ).a,
        p.a == 0 ==> normal_and_eraser_paint(p, mask, s, bands, color_a, opacity)
            == normal_and_eraser(p, mask, s, color_a, opacity),
{
    if p.a == 0 {
        let zero = Single { bits: 0 };
        let one = Single { bits: ONE };
        let full = Single { bits: SCALE };
        lemma_one();
        lemma_infinity_units();
        lemma_of_exact(0);
        lemma_known(SCALE, 0x80_0000, 141);
        lemma_pow2_pos(141);
        lemma_no_units(full);
        assert(Single::of(0).over_spec(full) == zero) by {
            reveal(Single::over_spec);
            lemma_no_units(Single::of(0));
            assert(0 * pow2(149) == 0);
            lemma_nearest_at_most(0, full.units(), 0);
        }
        law_clear_canvas_is_additive();
        assert(pigment_share(p) == zero);
        let rest = one.minus_spec(zero);
        lemma_negate(zero);
        lemma_plus_value(one, zero.negate_spec());
        lemma_rounded_exact(one);
        assert(!rest.same_spec(zero));
    }
}

/// Levels lie in range, and channels in range stay there.
pub proof fn law_posterize_stays_in_range(p: Rgba, mask: int, opacity: int, num: int)
    requires
        0 <= p.r <= 32768,
        0 <= p.g <= 32768,
        0 <= p.b <= 32768,
        fits(mask, opacity),
        1 <= num <= 128,
    ensures
        0 <= posterize(p, mask, opacity, num).r <= 32768,
        0 <= posterize(p, mask, opacity, num).g <= 32768,
        0 <= posterize(p, mask, opacity, num).b <= 32768,
        posterize(p, mask, opacity, num).a == p.a,
{
    lemma_shown(mask, opacity);
    lemma_level(p.r, num);
    lemma_level(p.g, num);
    lemma_level(p.b, num);
    let over = shown(mask, opacity);
    lemma_joined(level(p.r, num), over, p.r, 32768 - over, 32768);
    lemma_joined(level(p.g, num), over, p.g, 32768 - over, 32768);
    lemma_joined(level(p.b, num), over, p.b, 32768 - over, 32768);
}

/// The levels are those of rounding `c / 2^15 * num` to the nearest integer
/// in single precision, which is exact here.
pub proof fn law_level_rounds_to_nearest(c: u16, num: u32)
    requires
        1 <= num <= 128,
    ensures
        fraction(c).times_spec(Single::of(num as int)).plus_spec(Single { bits: HALF }).floored()
            == (c * num + 16384) / 32768,
{
    let x = (c * num) as nat;
    let y = (c * num + 16384) as nat;
    let f = fraction(c);
    let m = Single::of(num as int);
    let half = Single { bits: HALF };
    assert(0 <= c * num <= 65535 * 128) by (nonlinear_arith)
        requires
            0 <= c <= 65535,
            0 <= num <= 128,
    ;
    lemma_fraction_is_exact(c);
    lemma_of_exact(num as nat);
    lemma_half();
    lemma_pow2_pos(134);
    lemma_pow2_pos(149);
    let product = f.times_spec(m);
    assert(product.finite() && !product.negative() && product.units() == x * pow2(134)) by {
        reveal(Single::times_spec);
        let n = f.units() * m.units();
        assert(n == (x * pow2(134)) * pow2(149)) by (nonlinear_arith)
            requires
                n == (c * pow2(134)) * (num * pow2(149)),
                x == c * num,
        ;
        lemma_nearest_exact(n, pow2(149), x, 134);
    }
    let sum = product.plus_spec(half);
    assert(sum.finite() && !sum.negative() && sum.units() == y * pow2(134)) by {
        reveal(Single::plus_spec);
        assert(x * pow2(134) + 16384 * pow2(134) == (y * pow2(134)) * 1) by (nonlinear_arith)
            requires
                y == x + 16384,
        ;
        lemma_nearest_exact((y * pow2(134)) * 1, 1, y, 134);
        assert(y * pow2(134) > 0) by (nonlinear_arith)
            requires
                y >= 16384,
                pow2(134) > 0,
        ;
    }
    lemma_pow2_adds(15, 134);
    assert(pow2(15) == 32768) by {
        lemma2_to64();
    }
    lemma_scale_div(y, 32768, pow2(134));
}

proof fn lemma_half()
    ensures
        (Single { bits: HALF }).finite(),
        !(Single { bits: HALF }).negative(),
        (Single { bits: HALF }).units() == 16384 * pow2(134),
{
    assert(pow2(23) == 0x80_0000 && pow2(14) == 16384) by {
        lemma2_to64();
    }
    lemma_pow2_adds(23, 125);
    lemma_pow2_adds(14, 134);
    assert(HALF as nat / 0x80_0000 == 126 && HALF as nat % 0x80_0000 == 0);
    assert(magnitude(HALF as nat, 24) == (0 + pow2(23)) * pow2(125));
}

proof fn lemma_level(c: int, num: int)
    requires
        0 <= c <= 32768,
        1 <= num <= 128,
    ensures
        0 <= level(c, num) <= 32768,
{
    assert(0 <= c * num <= 32768 * num) by (nonlinear_arith)
        requires
            0 <= c <= 32768,
            1 <= num,
    ;
    let steps = (c * num + 16384) / 32768;
    assert(0 <= steps <= num);
    assert(0 <= 32768 * steps / num <= 32768) by (nonlinear_arith)
        requires
            0 <= steps <= num,
            1 <= num,
    ;
}

/// A pixel that 16-bit channels can hold.
pub open spec fn storable(p: Rgba) -> bool {
    &&& 0 <= p.r <= 65535
    &&& 0 <= p.g <= 65535
    &&& 0 <= p.b <= 65535
    &&& 0 <= p.a <= 65535
}

/// A storable pixel stays storable in every mode.
pub proof fn law_pixels_stay_storable(
    p: Rgba,
    mask: int,
    s: Source,
    bands: Seq<Single>,
    color_a: int,
    opacity: int,
    num: int,
)
    requires
        storable(p),
        s.wf(),
        fits(mask, opacity),
        0 <= color_a <= 32768,
    ensures
        storable(normal(p, mask, s, opacity)),
        storable(normal_and_eraser(p, mask, s, color_a, opacity)),
        storable(lock_alpha(p, mask, s, opacity)),
        storable(normal_paint(p, mask, s, bands, opacity)),
        storable(normal_and_eraser_paint(p, mask, s, bands, color_a, opacity)),
        storable(lock_alpha_paint(p, mask, s, bands, opacity)),
        storable(colorize(p, mask, s, opacity)),
        storable(posterize(p, mask, opacity, num)),
{
    lemma_painted_storable(p, mask, s, color_a, opacity);
    lemma_painted_storable(p, mask, s, color_a, pigment_opacity(opacity));
    lemma_shown(mask, opacity);
    let cut = shown(mask, opacity);
    lemma_shown(cut, color_a);
    lemma_stacked(cut * color_a / 32768, p.a, 32768 - cut);
    let pigment_cut = shown(mask, pigment_opacity(opacity));
    lemma_shown(mask, pigment_opacity(opacity));
    lemma_stacked(pigment_cut, p.a, 32768 - pigment_cut);
    lemma_locked(pigment_cut, p.a, 0, 0);
}

proof fn lemma_painted_storable(p: Rgba, mask: int, s: Source, color_a: int, opacity: int)
    requires
        storable(p),
        s.wf(),
        fits(mask, opacity),
        0 <= color_a <= 32768,
    ensures
        storable(normal(p, mask, s, opacity)),
        storable(normal_and_eraser(p, mask, s, color_a, opacity)),
        storable(lock_alpha(p, mask, s, opacity)),
{
    lemma_shown(mask, opacity);
    let cut = shown(mask, opacity);
    let under = 32768 - cut;
    lemma_shown(cut, color_a);
    let over = cut * color_a / 32768;
    lemma_stacked(cut, p.a, under);
    lemma_stacked(over, p.a, under);
    lemma_joined(s.r as int, cut, p.r, under, 65535);
    lemma_joined(s.g as int, cut, p.g, under, 65535);
    lemma_joined(s.b as int, cut, p.b, under, 65535);
    lemma_joined(s.r as int, over, p.r, under, 65535);
    lemma_joined(s.g as int, over, p.g, under, 65535);
    lemma_joined(s.b as int, over, p.b, under, 65535);
    lemma_locked(cut, p.a, s.r as int, p.r);
    lemma_locked(cut, p.a, s.g as int, p.g);
    lemma_locked(cut, p.a, s.b as int, p.b);
}

/// Colouring keeps alpha, and gives a pixel the differences between the
/// channels of the source wherever these fit into the range.
pub proof fn law_colouring_keeps_alpha_and_chroma(p: Rgba, mask: int, s: Source, opacity: int)
    ensures
        colorize(p, mask, s, opacity).a == p.a,
        ({
            let (r, g, b) = (straight(p.r, p.a), straight(p.g, p.a), straight(p.b, p.a));
            let d = luminance(r, g, b).to_u16_spec() - luminance(
                s.r as int,
                s.g as int,
                s.b as int,
            ).to_u16_spec();
            0 <= least(s.r + d, s.g + d, s.b + d) && greatest(s.r + d, s.g + d, s.b + d) <= 32768
                ==> with_luminance(s, r, g, b) == (s.r + d, s.g + d, s.b + d)
        }),
{
}

/// A channel that is brought back into range is in range.
pub proof fn law_clipping_ends_in_gamut(c: int, lum: int, low: int, high: int)
    requires
        low <= c <= high,
        0 <= lum <= 32768,
    ensures
        0 <= in_gamut(c, lum, low, high) <= 32768,
{
    let raised = if low < 0 {
        clipped(c, lum, lum, lum - low)
    } else {
        c
    };
    assert(0 <= raised && (raised <= c || raised <= lum)) by {
        if low < 0 {
            lemma_cut_within(c - lum, lum, lum - low);
        }
    }
    if high > 32768 {
        lemma_cut_within(raised - lum, 32768 - lum, high - lum);
    }
}

/// Bringing channels back into range keeps them in order.
pub proof fn law_clipping_keeps_order(c: int, d: int, lum: int, low: int, high: int)
    requires
        c <= d,
        0 <= lum <= 32768,
    ensures
        in_gamut(c, lum, low, high) <= in_gamut(d, lum, low, high),
{
    let (c1, d1) = if low < 0 {
        lemma_cut_in_order((c - lum) * lum, (d - lum) * lum, lum - low);
        assert((c - lum) * lum <= (d - lum) * lum) by (nonlinear_arith)
            requires
                c <= d,
                lum >= 0,
        ;
        (clipped(c, lum, lum, lum - low), clipped(d, lum, lum, lum - low))
    } else {
        (c, d)
    };
    assert(c1 <= d1);
    if high > 32768 {
        let to = 32768 - lum;
        assert((c1 - lum) * to <= (d1 - lum) * to) by (nonlinear_arith)
            requires
                c1 <= d1,
                to >= 0,
        ;
        lemma_cut_in_order((c1 - lum) * to, (d1 - lum) * to, high - lum);
    }
}

/// Whatever the colours, giving one the luminance of the other stays in range
/// and keeps the channels of the first in order.
pub proof fn law_coloured_stays_in_range(s: Source, r: int, g: int, b: int)
    ensures
        ({
            let c = with_luminance(s, r, g, b);
            &&& 0 <= c.0 <= 32768 && 0 <= c.1 <= 32768 && 0 <= c.2 <= 32768
            &&& s.r <= s.g ==> c.0 <= c.1
            &&& s.g <= s.r ==> c.1 <= c.0
            &&& s.r <= s.b ==> c.0 <= c.2
            &&& s.b <= s.r ==> c.2 <= c.0
            &&& s.g <= s.b ==> c.1 <= c.2
            &&& s.b <= s.g ==> c.2 <= c.1
        }),
{
    let d = luminance(r, g, b).to_u16_spec() - luminance(
        s.r as int,
        s.g as int,
        s.b as int,
    ).to_u16_spec();
    let (r1, g1, b1) = (s.r + d, s.g + d, s.b + d);
    let lum = held_luminance(r1, g1, b1);
    let low = least(r1, g1, b1);
    let high = greatest(r1, g1, b1);
    law_clipping_ends_in_gamut(r1, lum, low, high);
    law_clipping_ends_in_gamut(g1, lum, low, high);
    law_clipping_ends_in_gamut(b1, lum, low, high);
    if s.r <= s.g {
        law_clipping_keeps_order(r1, g1, lum, low, high);
    }
    if s.g <= s.r {
        law_clipping_keeps_order(g1, r1, lum, low, high);
    }
    if s.r <= s.b {
        law_clipping_keeps_order(r1, b1, lum, low, high);
    }
    if s.b <= s.r {
        law_clipping_keeps_order(b1, r1, lum, low, high);
    }
    if s.g <= s.b {
        law_clipping_keeps_order(g1, b1, lum, low, high);
    }
    if s.b <= s.g {
        law_clipping_keeps_order(b1, g1, lum, low, high);
    }
}

proof fn lemma_cut_in_order(m: int, n: int, d: int)
    ensures
        m <= n && d > 0 ==> cut_quotient(m, d) <= cut_quotient(n, d),
{
    if m <= n && d > 0 {
        if m >= 0 {
            lemma_div_is_ordered(m, n, d);
        } else {
            lemma_div_pos_is_pos(-m, d);
            if n >= 0 {
                lemma_div_pos_is_pos(n, d);
            } else {
                lemma_div_is_ordered(-n, -m, d);
            }
        }
    }
}

/// A distance that is scaled so that `from` becomes `to`, which is no more, and
/// cut.
pub proof fn lemma_cut_within(d: int, to: int, from: int)
    requires
        0 <= to <= from,
        from > 0,
    ensures
        d >= 0 ==> 0 <= cut_quotient(d * to, from) <= d,
        d <= 0 ==> d <= cut_quotient(d * to, from) <= 0,
        0 <= d <= from ==> cut_quotient(d * to, from) <= to,
        -from <= d <= 0 ==> -to <= cut_quotient(d * to, from),
{
    let m = if d >= 0 {
        d
    } else {
        -d
    };
    let n = m * to;
    assert((d >= 0 ==> d * to == n) && (d <= 0 ==> d * to == -n) && n >= 0) by (nonlinear_arith)
        requires
            to >= 0,
            m >= 0,
            m == d || m == -d,
            d >= 0 ==> m == d,
            n == m * to,
    ;
    assert(n <= m * from && (m <= from ==> n <= to * from)) by (nonlinear_arith)
        requires
            0 <= to <= from,
            0 <= m,
            n == m * to,
    ;
    lemma_div_pos_is_pos(n, from);
    lemma_div_is_ordered(n, m * from, from);
    lemma_div_multiples_vanish(m, from);
    lemma_mul_is_commutative(m, from);
    if m <= from {
        lemma_div_is_ordered(n, to * from, from);
        lemma_div_multiples_vanish(to, from);
        lemma_mul_is_commutative(to, from);
    }
}

} // verus!
