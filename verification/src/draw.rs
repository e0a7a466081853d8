//! Drawing a dab on a surface: which tiles it reaches, which blend modes it
//! goes through, and what becomes of every pixel.
use crate::blend::{
    colorize, law_pixels_stay_storable, lock_alpha, lock_alpha_paint, normal, normal_and_eraser,
    normal_and_eraser_paint, normal_paint, posterize, rgba, source_spectrum, storable, Rgba, Source,
};
use crate::brushmodes::{
    blend_color, blend_lock_alpha, blend_lock_alpha_paint, blend_normal, blend_normal_and_eraser,
    blend_normal_and_eraser_paint, blend_normal_paint, blend_posterize, in_tile, lemma_not_painted,
    lemma_painted_once, painted,
};
use crate::color::{to_unit, unit};
use crate::geometry::{law_coverage_is_at_most_one, Ellipse, Shape};
use crate::mask::{collect_dab_mask, is_mask, lists, mask_at, MaskEntry};
use crate::range::{
    in_unit, lemma_one, lemma_rest_in_unit, lemma_scaled_at_most_one, lemma_times_in_unit,
    lemma_unit_in_unit, FULL,
};
use crate::single::{lemma_infinity_units, Single, ONE};
use crate::surface::{Dab, TiledSurface, Turn};
use crate::tile::{pixel, tile_index, tile_of, TilePixels};
use vstd::arithmetic::div_mod::*;
use vstd::arithmetic::power2::*;
use vstd::prelude::*;

verus! {

/// One blend mode that a dab goes through, with its opacity.
#[derive(Clone, Copy, Debug, PartialEq, Eq, Structural)]
pub enum Pass {
    Normal { opacity: u32 },
    NormalAndEraser { color_a: u32, opacity: u32 },
    LockAlpha { opacity: u32 },
    NormalPaint { opacity: u32 },
    NormalAndEraserPaint { color_a: u32, opacity: u32 },
    LockAlphaPaint { opacity: u32 },
    Colorize { opacity: u32 },
    Posterize { opacity: u32, num: u32 },
}

impl Pass {
    pub open spec fn wf(self) -> bool {
        match self {
            Pass::Normal { opacity } => opacity <= 32768,
            Pass::NormalAndEraser { color_a, opacity } => color_a <= 32768 && opacity <= 32768,
            Pass::LockAlpha { opacity } => opacity <= 32768,
            Pass::NormalPaint { opacity } => opacity <= 32768,
            Pass::NormalAndEraserPaint { color_a, opacity } => color_a <= 32768 && opacity <= 32768,
            Pass::LockAlphaPaint { opacity } => opacity <= 32768,
            Pass::Colorize { opacity } => opacity <= 32768,
            Pass::Posterize { opacity, num } => opacity <= 32768 && 1 <= num <= 128,
        }
    }
}

/// What a pass makes of a pixel that the dab covers by `m`.
pub open spec fn pass_pixel(pass: Pass, p: Rgba, m: int, s: Source) -> Rgba {
    match pass {
        Pass::Normal { opacity } => normal(p, m, s, opacity as int),
        Pass::NormalAndEraser { color_a, opacity } => normal_and_eraser(
            p,
            m,
            s,
            color_a as int,
            opacity as int,
        ),
        Pass::LockAlpha { opacity } => lock_alpha(p, m, s, opacity as int),
        Pass::NormalPaint { opacity } => normal_paint(
            p,
            m,
            s,
            source_spectrum(s),
            opacity as int,
        ),
        Pass::NormalAndEraserPaint { color_a, opacity } => normal_and_eraser_paint(
            p,
            m,
            s,
            source_spectrum(s),
            color_a as int,
            opacity as int,
        ),
        Pass::LockAlphaPaint { opacity } => lock_alpha_paint(
            p,
            m,
            s,
            source_spectrum(s),
            opacity as int,
        ),
        Pass::Colorize { opacity } => colorize(p, m, s, opacity as int),
        Pass::Posterize { opacity, num } => posterize(p, m, opacity as int, num as int),
    }
}

/// What the first `n` passes make of a pixel, one after the other.
pub open spec fn passed(passes: Seq<Pass>, n: nat, p: Rgba, m: int, s: Source) -> Rgba
    decreases n,
{
    if n == 0 {
        p
    } else {
        pass_pixel(passes[n - 1], passed(passes, (n - 1) as nat, p, m, s), m, s)
    }
}

/// A fraction of one in fix15, cut to an integer.
pub open spec fn fixed(v: Single) -> u32 {
    v.times_spec(Single { bits: FULL }).to_u32_spec()
}

fn fix(v: Single) -> (r: u32)
    requires
        in_unit(v),
    ensures
        r == fixed(v),
        r <= 32768,
{
    proof {
        lemma_scaled_at_most_one(v);
    }
    v.times(Single { bits: FULL }).to_u32()
}

/// What is left of one.
pub open spec fn rest(v: Single) -> Single {
    (Single { bits: ONE }).minus_spec(v)
}

/// The share of a dab that is painted, rather than locked, coloured or
/// posterized.
pub open spec fn normal_share(dab: Dab) -> Single {
    rest(unit(dab.lock_alpha)).times_spec(rest(unit(dab.colorize))).times_spec(
        rest(unit(dab.posterize)),
    )
}

/// The passes that paint, for the share of the dab that is pigment or the
/// share that is not.
pub open spec fn painting(dab: Dab, share: Single, pigment: bool) -> Seq<Pass> {
    let zero = Single { bits: 0 };
    let color_a = unit(dab.alpha_eraser);
    let opaque = unit(dab.opaque);
    let lock = unit(dab.lock_alpha);
    let first = if normal_share(dab).same_spec(zero) {
        seq![]
    } else {
        let opacity = fixed(normal_share(dab).times_spec(opaque).times_spec(share));
        if color_a.same_spec(Single { bits: ONE }) {
            seq![
                if pigment {
                    Pass::NormalPaint { opacity }
                } else {
                    Pass::Normal { opacity }
                },
            ]
        } else {
            seq![
                if pigment {
                    Pass::NormalAndEraserPaint { color_a: fixed(color_a), opacity }
                } else {
                    Pass::NormalAndEraser { color_a: fixed(color_a), opacity }
                },
            ]
        }
    };
    let second = if lock.same_spec(zero) || color_a.same_spec(zero) {
        seq![]
    } else {
        let opacity = fixed(
            lock.times_spec(opaque).times_spec(rest(unit(dab.colorize))).times_spec(
                rest(unit(dab.posterize)),
            ).times_spec(share),
        );
        seq![
            if pigment {
                Pass::LockAlphaPaint { opacity }
            } else {
                Pass::LockAlpha { opacity }
            },
        ]
    };
    first + second
}

/// The number of levels that a dab posterizes to: between 1 and 128, and 1
/// where the dab gives no number.
pub open spec fn levels(dab: Dab) -> u32 {
    let one = Single { bits: ONE };
    if dab.posterize_num.nan() {
        1
    } else {
        dab.posterize_num.clamp_spec(one, Single { bits: MOST_LEVELS }).to_u32_spec()
    }
}

/// 128.0.
pub const MOST_LEVELS: u32 = 0x4300_0000;

/// The passes of a dab: painting without pigment, painting with pigment,
/// colouring, posterizing, each as far as the dab asks for it.
pub open spec fn passes(dab: Dab) -> Seq<Pass> {
    let zero = Single { bits: 0 };
    let one = Single { bits: ONE };
    let paint = unit(dab.paint);
    let opaque = unit(dab.opaque);
    let colorize = unit(dab.colorize);
    let posterize = unit(dab.posterize);
    (if paint.lt_spec(one) {
        painting(dab, rest(paint), false)
    } else {
        seq![]
    }) + (if zero.lt_spec(paint) {
        painting(dab, paint, true)
    } else {
        seq![]
    }) + (if colorize.same_spec(zero) {
        seq![]
    } else {
        seq![Pass::Colorize { opacity: fixed(colorize.times_spec(opaque)) }]
    }) + (if posterize.same_spec(zero) {
        seq![]
    } else {
        seq![
            Pass::Posterize {
                opacity: fixed(posterize.times_spec(opaque)),
                num: levels(dab),
            },
        ]
    })
}

/// The straight colour of a dab, in fix15.
pub open spec fn source(dab: Dab) -> Source {
    Source {
        r: fixed(unit(dab.color.r)),
        g: fixed(unit(dab.color.g)),
        b: fixed(unit(dab.color.b)),
    }
}

fn source_of(dab: &Dab) -> (s: Source)
    ensures
        s == source(*dab),
        s.wf(),
{
    proof {
        lemma_unit_in_unit(dab.color.r);
        lemma_unit_in_unit(dab.color.g);
        lemma_unit_in_unit(dab.color.b);
    }
    Source {
        r: fix(to_unit(dab.color.r)),
        g: fix(to_unit(dab.color.g)),
        b: fix(to_unit(dab.color.b)),
    }
}

/// One minus a number in `[0, 1]`.
fn complement(v: Single) -> (r: Single)
    requires
        in_unit(v),
    ensures
        r == rest(v),
        in_unit(r),
{
    proof {
        lemma_rest_in_unit(v);
    }
    (Single { bits: ONE }).minus(v)
}

/// A number held to `[0, 1]`.
fn held(v: Single) -> (r: Single)
    ensures
        r == unit(v),
        in_unit(r),
{
    proof {
        lemma_unit_in_unit(v);
    }
    to_unit(v)
}

/// The product of two numbers in `[0, 1]`.
fn product(a: Single, b: Single) -> (r: Single)
    requires
        in_unit(a),
        in_unit(b),
    ensures
        r == a.times_spec(b),
        in_unit(r),
{
    proof {
        lemma_times_in_unit(a, b);
    }
    a.times(b)
}

/// Appends the passes that paint.
fn push_painting(out: &mut Vec<Pass>, dab: &Dab, share: Single, pigment: bool)
    requires
        in_unit(share),
        forall|i: int| 0 <= i < old(out)@.len() ==> (#[trigger] old(out)@[i]).wf(),
    ensures
        final(out)@ == old(out)@ + painting(*dab, share, pigment),
        forall|i: int| 0 <= i < final(out)@.len() ==> (#[trigger] final(out)@[i]).wf(),
{
    let zero = Single { bits: 0 };
    let color_a = held(dab.alpha_eraser);
    let opaque = held(dab.opaque);
    let lock = held(dab.lock_alpha);
    let uncoloured = complement(held(dab.colorize));
    let smooth = complement(held(dab.posterize));
    let plain = product(product(complement(lock), uncoloured), smooth);
    if !plain.same(zero) {
        let opacity: u32 = fix(product(product(plain, opaque), share));
        if color_a.same(Single { bits: ONE }) {
            out.push(
                if pigment {
                    Pass::NormalPaint { opacity }
                } else {
                    Pass::Normal { opacity }
                },
            );
        } else {
            let alpha: u32 = fix(color_a);
            out.push(
                if pigment {
                    Pass::NormalAndEraserPaint { color_a: alpha, opacity }
                } else {
                    Pass::NormalAndEraser { color_a: alpha, opacity }
                },
            );
        }
    }
    if !lock.same(zero) && !color_a.same(zero) {
        let opacity: u32 = fix(
            product(product(product(product(lock, opaque), uncoloured), smooth), share),
        );
        out.push(
            if pigment {
                Pass::LockAlphaPaint { opacity }
            } else {
                Pass::LockAlpha { opacity }
            },
        );
    }
    assert(out@ =~= old(out)@ + painting(*dab, share, pigment));
}

proof fn lemma_levels(dab: Dab)
    ensures
        1 <= levels(dab) <= 128,
{
    let one = Single { bits: ONE };
    let most = Single { bits: MOST_LEVELS };
    lemma_one();
    lemma_infinity_units();
    assert(pow2(23) == 0x80_0000 && pow2(7) == 128) by {
        lemma2_to64();
    }
    lemma_pow2_adds(23, 133);
    lemma_pow2_adds(7, 149);
    assert(MOST_LEVELS as nat / 0x80_0000 == 134 && MOST_LEVELS as nat % 0x80_0000 == 0);
    assert(most.units() == (0 + pow2(23)) * pow2(133));
    let c = dab.posterize_num.clamp_spec(one, most);
    assert(!c.nan() ==> pow2(149) <= c.value() <= 128 * pow2(149));
    if !c.nan() {
        lemma_div_is_ordered(pow2(149) as int, c.units() as int, pow2(149) as int);
        lemma_div_is_ordered(c.units() as int, 128 * pow2(149) as int, pow2(149) as int);
    }
    lemma_div_by_multiple(1, pow2(149) as int);
    lemma_div_by_multiple(128, pow2(149) as int);
}

/// The passes of a dab.
pub fn plan(dab: &Dab) -> (out: Vec<Pass>)
    ensures
        out@ == passes(*dab),
        forall|i: int| 0 <= i < out@.len() ==> (#[trigger] out@[i]).wf(),
{
    let zero = Single { bits: 0 };
    let one = Single { bits: ONE };
    let mut out: Vec<Pass> = Vec::new();
    let paint = held(dab.paint);
    let opaque = held(dab.opaque);
    let colorize = held(dab.colorize);
    let posterize = held(dab.posterize);
    if paint.lt(one) {
        push_painting(&mut out, dab, complement(paint), false);
    }
    if zero.lt(paint) {
        push_painting(&mut out, dab, paint, true);
    }
    if !colorize.same(zero) {
        out.push(Pass::Colorize { opacity: fix(product(colorize, opaque)) });
    }
    if !posterize.same(zero) {
        proof {
            lemma_levels(*dab);
        }
        let num: u32 = if dab.posterize_num.is_nan() {
            1
        } else {
            dab.posterize_num.clamp(one, Single { bits: MOST_LEVELS }).to_u32()
        };
        out.push(Pass::Posterize { opacity: fix(product(posterize, opaque)), num });
    }
    assert(out@ =~= passes(*dab));
    out
}

/// What a pass does to a tile.
pub open spec fn pass_of(pass: Pass, s: Source) -> spec_fn(Rgba, int) -> Rgba {
    |p: Rgba, m: int| pass_pixel(pass, p, m, s)
}

/// Runs one pass over a tile.
fn run_pass(tile: &mut TilePixels, entries: &Vec<MaskEntry>, s: Source, pass: Pass)
    requires
        in_tile(entries@),
        s.wf(),
        pass.wf(),
    ensures
        forall|x: int, y: int|
            0 <= x < 64 && 0 <= y < 64 ==> rgba(#[trigger] pixel(*final(tile), x, y)) == painted(
                rgba(pixel(*old(tile), x, y)),
                entries@,
                entries@.len(),
                x,
                y,
                pass_of(pass, s),
            ),
{
    match pass {
        Pass::Normal { opacity } => {
            assert(pass_of(pass, s) =~= (|p: Rgba, m: int| normal(p, m, s, opacity as int)));
            blend_normal(tile, entries, s, opacity);
        },
        Pass::NormalAndEraser { color_a, opacity } => {
            assert(pass_of(pass, s) =~= (|p: Rgba, m: int|
                normal_and_eraser(p, m, s, color_a as int, opacity as int)));
            blend_normal_and_eraser(tile, entries, s, color_a, opacity);
        },
        Pass::LockAlpha { opacity } => {
            assert(pass_of(pass, s) =~= (|p: Rgba, m: int| lock_alpha(p, m, s, opacity as int)));
            blend_lock_alpha(tile, entries, s, opacity);
        },
        Pass::NormalPaint { opacity } => {
            assert(pass_of(pass, s) =~= (|p: Rgba, m: int|
                normal_paint(p, m, s, source_spectrum(s), opacity as int)));
            blend_normal_paint(tile, entries, s, opacity);
        },
        Pass::NormalAndEraserPaint { color_a, opacity } => {
            assert(pass_of(pass, s) =~= (|p: Rgba, m: int|
                normal_and_eraser_paint(
                    p,
                    m,
                    s,
                    source_spectrum(s),
                    color_a as int,
                    opacity as int,
                )));
            blend_normal_and_eraser_paint(tile, entries, s, color_a, opacity);
        },
        Pass::LockAlphaPaint { opacity } => {
            assert(pass_of(pass, s) =~= (|p: Rgba, m: int|
                lock_alpha_paint(p, m, s, source_spectrum(s), opacity as int)));
            blend_lock_alpha_paint(tile, entries, s, opacity);
        },
        Pass::Colorize { opacity } => {
            assert(pass_of(pass, s) =~= (|p: Rgba, m: int| colorize(p, m, s, opacity as int)));
            blend_color(tile, entries, s, opacity);
        },
        Pass::Posterize { opacity, num } => {
            assert(pass_of(pass, s) =~= (|p: Rgba, m: int|
                posterize(p, m, opacity as int, num as int)));
            blend_posterize(tile, entries, opacity, num);
        },
    }
}

/// What the passes make of a pixel that the dab covers by `m`, if at all.
pub open spec fn dabbed(ps: Seq<Pass>, p: Rgba, m: u32, s: Source) -> Rgba {
    if m != 0 {
        passed(ps, ps.len(), p, m as int, s)
    } else {
        p
    }
}

/// Runs all passes over a tile.
fn run_passes(
    tile: &mut TilePixels,
    entries: &Vec<MaskEntry>,
    s: Source,
    ps: &Vec<Pass>,
    Ghost(shape): Ghost<Shape>,
    Ghost(fringe): Ghost<Single>,
)
    requires
        is_mask(entries@, shape, fringe),
        s.wf(),
        forall|i: int| 0 <= i < ps@.len() ==> (#[trigger] ps@[i]).wf(),
    ensures
        forall|x: int, y: int|
            0 <= x < 64 && 0 <= y < 64 ==> rgba(#[trigger] pixel(*final(tile), x, y)) == dabbed(
                ps@,
                rgba(pixel(*old(tile), x, y)),
                mask_at(shape, fringe, x, y),
                s,
            ),
{
    let ghost before = *tile;
    let mut i: usize = 0;
    while i < ps.len()
        invariant
            i <= ps@.len(),
            is_mask(entries@, shape, fringe),
            s.wf(),
            forall|j: int| 0 <= j < ps@.len() ==> (#[trigger] ps@[j]).wf(),
            forall|x: int, y: int|
                0 <= x < 64 && 0 <= y < 64 ==> rgba(#[trigger] pixel(*tile, x, y)) == (if mask_at(
                    shape,
                    fringe,
                    x,
                    y,
                ) != 0 {
                    passed(
                        ps@,
                        i as nat,
                        rgba(pixel(before, x, y)),
                        mask_at(shape, fringe, x, y) as int,
                        s,
                    )
                } else {
                    rgba(pixel(before, x, y))
                }),
        decreases ps@.len() - i,
    {
        let ghost last = *tile;
        let pass: Pass = ps[i];
        run_pass(tile, entries, s, pass);
        proof {
            assert forall|x: int, y: int| 0 <= x < 64 && 0 <= y < 64 implies rgba(
                #[trigger] pixel(*tile, x, y),
            ) == (if mask_at(shape, fringe, x, y) != 0 {
                passed(
                    ps@,
                    (i + 1) as nat,
                    rgba(pixel(before, x, y)),
                    mask_at(shape, fringe, x, y) as int,
                    s,
                )
            } else {
                rgba(pixel(before, x, y))
            }) by {
                let m = mask_at(shape, fringe, x, y);
                let p = rgba(pixel(last, x, y));
                if m != 0 {
                    assert(lists(entries@, x, y, m));
                    let j = choose|j: int|
                        0 <= j < entries@.len() && (#[trigger] entries@[j]).0 == x && entries@[j].1
                            == y && entries@[j].2 == m;
                    lemma_painted_once(
                        p,
                        entries@,
                        entries@.len(),
                        x,
                        y,
                        pass_of(pass, s),
                        j,
                    );
                } else {
                    lemma_not_painted(p, entries@, entries@.len(), x, y, pass_of(pass, s));
                }
            }
        }
        i += 1;
    }
}

/// 3.0, the radius below which pixels at the edge of a dab are cut.
pub const SMALL_RADIUS: u32 = 0x4040_0000;

/// How far from its centre a dab can reach.
pub open spec fn fringe(dab: Dab) -> Single {
    let one = Single { bits: ONE };
    if (Single { bits: 0 }).lt_spec(dab.anti_aliasing) {
        dab.radius.plus_spec(one).plus_spec(dab.anti_aliasing)
    } else {
        dab.radius.plus_spec(one)
    }
}

/// Where the feather of a solid disk ends, as a squared relative distance.
pub open spec fn feather_edge(dab: Dab) -> Single {
    if (Single { bits: 0 }).lt_spec(dab.anti_aliasing) {
        let e = dab.radius.plus_spec(dab.anti_aliasing).over_spec(dab.radius);
        e.times_spec(e)
    } else {
        Single { bits: ONE }
    }
}

/// Where pixels begin to be cut by the edge of a dab; negative for a dab
/// that is not small.
pub open spec fn cut_start(radius: Single, aspect: Single) -> Single {
    let one = Single { bits: ONE };
    if radius.lt_spec(Single { bits: SMALL_RADIUS }) {
        let start = if one.lt_spec(radius) {
            radius.minus_spec(one)
        } else {
            Single { bits: 0 }
        };
        start.times_spec(start).over_spec(aspect)
    } else {
        one.negate_spec()
    }
}

pub fn cut_start_of(radius: Single, aspect: Single) -> (r: Single)
    ensures
        r == cut_start(radius, aspect),
{
    let one = Single { bits: ONE };
    if radius.lt(Single { bits: SMALL_RADIUS }) {
        let start = if one.lt(radius) {
            radius.minus(one)
        } else {
            Single { bits: 0 }
        };
        start.times(start).over(aspect)
    } else {
        one.negate()
    }
}

/// A world coordinate as seen from a tile.
pub open spec fn local(c: Single, t: int) -> Single {
    c.minus_spec(Single::of(t * 64))
}

/// The dab as tile `(tx, ty)` sees it.
pub open spec fn shape(dab: Dab, turn: Turn, tx: int, ty: int) -> Shape {
    let one = Single { bits: ONE };
    let aspect = dab.aspect_ratio.max_spec(one);
    Shape {
        x: local(dab.x, tx),
        y: local(dab.y, ty),
        hardness: unit(dab.hardness),
        ellipse: Ellipse { aspect, cs: turn.cs, sn: turn.sn },
        inv_r2: one.over_spec(dab.radius.times_spec(dab.radius)),
        r_aa_start: cut_start(dab.radius, aspect),
        edge: feather_edge(dab),
    }
}

/// One over a square is not negative.
pub proof fn lemma_inverse_square_has_no_sign(r: Single)
    ensures
        !(Single { bits: ONE }).over_spec(r.times_spec(r)).negative(),
{
    reveal(Single::times_spec);
    reveal(Single::over_spec);
}

fn shape_of(dab: &Dab, turn: Turn, tx: i32, ty: i32) -> (r: Shape)
    requires
        -0x200_0000 <= tx <= 0x1ff_ffff,
        -0x200_0000 <= ty <= 0x1ff_ffff,
    ensures
        r == shape(*dab, turn, tx as int, ty as int),
        r.wf(),
{
    proof {
        lemma_inverse_square_has_no_sign(dab.radius);
    }
    let one = Single { bits: ONE };
    let aspect = dab.aspect_ratio.max(one);
    let edge = if (Single { bits: 0 }).lt(dab.anti_aliasing) {
        let e = dab.radius.plus(dab.anti_aliasing).over(dab.radius);
        e.times(e)
    } else {
        one
    };
    Shape {
        x: dab.x.minus(Single::from_i32(tx * 64)),
        y: dab.y.minus(Single::from_i32(ty * 64)),
        hardness: to_unit(dab.hardness),
        ellipse: Ellipse { aspect, cs: turn.cs, sn: turn.sn },
        inv_r2: one.over(dab.radius.times(dab.radius)),
        r_aa_start: cut_start_of(dab.radius, aspect),
        edge,
    }
}

/// A range of tiles, inclusive.
#[derive(Clone, Copy, Debug, PartialEq, Eq, Structural)]
pub struct TileRange {
    pub tx0: i32,
    pub ty0: i32,
    pub tx1: i32,
    pub ty1: i32,
}

impl TileRange {
    pub open spec fn contains(self, tx: int, ty: int) -> bool {
        self.tx0 <= tx <= self.tx1 && self.ty0 <= ty <= self.ty1
    }
}

/// The tiles within `reach` of a point.
pub open spec fn tiles_around(x: Single, y: Single, reach: Single) -> TileRange {
    TileRange {
        tx0: tile_of(x.minus_spec(reach).floor_i32_spec() as int) as i32,
        ty0: tile_of(y.minus_spec(reach).floor_i32_spec() as int) as i32,
        tx1: tile_of(x.plus_spec(reach).floor_i32_spec() as int) as i32,
        ty1: tile_of(y.plus_spec(reach).floor_i32_spec() as int) as i32,
    }
}

pub fn tile_range(x: Single, y: Single, reach: Single) -> (r: TileRange)
    ensures
        r == tiles_around(x, y, reach),
        -0x200_0000 <= r.tx0,
        r.tx1 <= 0x1ff_ffff,
        -0x200_0000 <= r.ty0,
        r.ty1 <= 0x1ff_ffff,
{
    TileRange {
        tx0: tile_index(x.minus(reach).floor_i32()),
        ty0: tile_index(y.minus(reach).floor_i32()),
        tx1: tile_index(x.plus(reach).floor_i32()),
        ty1: tile_index(y.plus(reach).floor_i32()),
    }
}

/// How much a dab covers pixel `(x, y)` of tile `(tx, ty)`.
pub open spec fn cover(dab: Dab, turn: Turn, tx: int, ty: int, x: int, y: int) -> u32 {
    mask_at(shape(dab, turn, tx, ty), fringe(dab), x, y)
}

/// Whether a dab covers anything of a tile that it reaches.
pub open spec fn touches(dab: Dab, turn: Turn, tx: int, ty: int) -> bool {
    &&& tiles_around(dab.x, dab.y, fringe(dab)).contains(tx, ty)
    &&& exists|x: int, y: int|
        0 <= x < 64 && 0 <= y < 64 && #[trigger] cover(dab, turn, tx, ty, x, y) != 0
}

/// A pixel of a canvas; transparent where there is no tile.
pub open spec fn canvas_pixel(
    tiles: Map<(i32, i32), TilePixels>,
    tx: i32,
    ty: i32,
    x: int,
    y: int,
) -> Rgba {
    if tiles.contains_key((tx, ty)) {
        rgba(pixel(tiles[(tx, ty)], x, y))
    } else {
        Rgba { r: 0, g: 0, b: 0, a: 0 }
    }
}

/// What a dab makes of a pixel in a tile that it touches.
pub open spec fn drawn(dab: Dab, p: Rgba, m: u32) -> Rgba {
    dabbed(passes(dab), p, m, source(dab))
}

/// A canvas before and after a dab, as far as the tiles in `done` go.
pub open spec fn drawn_on(
    before: Map<(i32, i32), TilePixels>,
    after: Map<(i32, i32), TilePixels>,
    dab: Dab,
    turn: Turn,
    done: spec_fn(i32, i32) -> bool,
) -> bool {
    &&& forall|tx: i32, ty: i32|
        #![trigger after.contains_key((tx, ty))]
        after.contains_key((tx, ty)) <==> before.contains_key((tx, ty)) || (done(tx, ty)
            && touches(dab, turn, tx as int, ty as int))
    &&& forall|tx: i32, ty: i32, x: int, y: int|
        0 <= x < 64 && 0 <= y < 64 ==> #[trigger] canvas_pixel(after, tx, ty, x, y) == (if done(
            tx,
            ty,
        ) && touches(dab, turn, tx as int, ty as int) {
            drawn(
                dab,
                canvas_pixel(before, tx, ty, x, y),
                cover(dab, turn, tx as int, ty as int, x, y),
            )
        } else {
            canvas_pixel(before, tx, ty, x, y)
        })
}

/// Whether any pixel of a canvas is another one than before.
pub open spec fn differs(
    before: Map<(i32, i32), TilePixels>,
    after: Map<(i32, i32), TilePixels>,
) -> bool {
    exists|tx: i32, ty: i32, x: int, y: int|
        0 <= x < 64 && 0 <= y < 64 && #[trigger] canvas_pixel(after, tx, ty, x, y) != canvas_pixel(
            before,
            tx,
            ty,
            x,
            y,
        )
}

/// Whether a dab covers any pixel at all.
pub open spec fn marks(dab: Dab, turn: Turn) -> bool {
    exists|tx: i32, ty: i32| #[trigger] touches(dab, turn, tx as int, ty as int)
}

/// A record of lent tiles before and after a dab.
pub open spec fn recorded(
    before: Option<Set<(i32, i32)>>,
    after: Option<Set<(i32, i32)>>,
    dab: Dab,
    turn: Turn,
    done: spec_fn(i32, i32) -> bool,
) -> bool {
    match before {
        None => after is None,
        Some(b) => match after {
            None => false,
            Some(a) => forall|tx: i32, ty: i32|
                #[trigger] a.contains((tx, ty)) <==> b.contains((tx, ty)) || (done(tx, ty)
                    && touches(dab, turn, tx as int, ty as int)),
        },
    }
}

/// The tiles of a range that come before `(tx, ty)` row by row.
pub open spec fn earlier(range: TileRange, tx: int, ty: int) -> spec_fn(i32, i32) -> bool {
    |a: i32, b: i32| range.contains(a as int, b as int) && (b < ty || (b == ty && a < tx))
}

/// One tile alone.
pub open spec fn only(tx: i32, ty: i32) -> spec_fn(i32, i32) -> bool {
    |a: i32, b: i32| a == tx && b == ty
}

/// All tiles.
pub open spec fn everywhere() -> spec_fn(i32, i32) -> bool {
    |a: i32, b: i32| true
}

proof fn lemma_touches(dab: Dab, turn: Turn, tx: int, ty: int, entries: Seq<MaskEntry>)
    requires
        is_mask(entries, shape(dab, turn, tx, ty), fringe(dab)),
        tiles_around(dab.x, dab.y, fringe(dab)).contains(tx, ty),
    ensures
        touches(dab, turn, tx, ty) <==> entries.len() > 0,
{
    if entries.len() > 0 {
        let e = entries[0];
        assert(cover(dab, turn, tx, ty, e.0 as int, e.1 as int) != 0);
    }
    if touches(dab, turn, tx, ty) {
        let (x, y) = choose|x: int, y: int|
            0 <= x < 64 && 0 <= y < 64 && #[trigger] cover(dab, turn, tx, ty, x, y) != 0;
        assert(mask_at(shape(dab, turn, tx, ty), fringe(dab), x, y) != 0);
    }
}

/// Whether any of the listed pixels of a tile is another one than before.
fn listed_differ(before: &TilePixels, after: &TilePixels, entries: &Vec<MaskEntry>) -> (r: bool)
    requires
        in_tile(entries@),
    ensures
        r <==> exists|i: int|
            0 <= i < entries@.len() && rgba(
                pixel(*after, (#[trigger] entries@[i]).0 as int, entries@[i].1 as int),
            ) != rgba(pixel(*before, entries@[i].0 as int, entries@[i].1 as int)),
{
    let mut i: usize = 0;
    while i < entries.len()
        invariant
            i <= entries@.len(),
            in_tile(entries@),
            forall|j: int|
                0 <= j < i ==> rgba(
                    pixel(*after, (#[trigger] entries@[j]).0 as int, entries@[j].1 as int),
                ) == rgba(pixel(*before, entries@[j].0 as int, entries@[j].1 as int)),
        decreases entries@.len() - i,
    {
        let e: MaskEntry = entries[i];
        let x: usize = e.0 as usize;
        let y: usize = e.1 as usize;
        let p: [u16; 4] = after[y][x];
        let q: [u16; 4] = before[y][x];
        assert(p == pixel(*after, entries@[i as int].0 as int, entries@[i as int].1 as int));
        assert(q == pixel(*before, entries@[i as int].0 as int, entries@[i as int].1 as int));
        if p[0] != q[0] || p[1] != q[1] || p[2] != q[2] || p[3] != q[3] {
            return true;
        }
        i += 1;
    }
    false
}

/// Draws the part of a dab that falls on one tile.  Returns whether that changes
/// any pixel.
fn draw_on_tile<S: TiledSurface>(
    surface: &mut S,
    dab: &Dab,
    turn: Turn,
    tx: i32,
    ty: i32,
    reach: Single,
    s: Source,
    ps: &Vec<Pass>,
) -> (r: bool)
    requires
        old(surface).wf(),
        -0x200_0000 <= tx <= 0x1ff_ffff,
        -0x200_0000 <= ty <= 0x1ff_ffff,
        reach == fringe(*dab),
        tiles_around(dab.x, dab.y, reach).contains(tx as int, ty as int),
        s == source(*dab),
        s.wf(),
        ps@ == passes(*dab),
        forall|i: int| 0 <= i < ps@.len() ==> (#[trigger] ps@[i]).wf(),
    ensures
        final(surface).wf(),
        r == differs(old(surface).tiles(), final(surface).tiles()),
        drawn_on(old(surface).tiles(), final(surface).tiles(), *dab, turn, only(tx, ty)),
        recorded(old(surface).lent(), final(surface).lent(), *dab, turn, only(tx, ty)),
{
    let local_shape: Shape = shape_of(dab, turn, tx, ty);
    let entries: Vec<MaskEntry> = collect_dab_mask(local_shape, reach);
    proof {
        lemma_touches(*dab, turn, tx as int, ty as int, entries@);
    }
    if entries.len() == 0 {
        return false;
    }
    let ghost before = surface.tiles();
    let tile: &mut TilePixels = surface.tile_request_start(tx, ty);
    let t0: TilePixels = *tile;
    assert(in_tile(entries@));
    run_passes(tile, &entries, s, ps, Ghost(local_shape), Ghost(reach));
    let ghost t1 = *tile;
    let changed: bool = listed_differ(&t0, tile, &entries);
    surface.tile_request_end(tx, ty);
    proof {
        let after = surface.tiles();
        assert(after == before.insert((tx, ty), t1));
        assert forall|a: i32, b: i32, x: int, y: int|
            0 <= x < 64 && 0 <= y < 64 implies #[trigger] canvas_pixel(after, a, b, x, y) == (if (
        only(tx, ty))(a, b) && touches(*dab, turn, a as int, b as int) {
            drawn(
                *dab,
                canvas_pixel(before, a, b, x, y),
                cover(*dab, turn, a as int, b as int, x, y),
            )
        } else {
            canvas_pixel(before, a, b, x, y)
        }) by {
            if a == tx && b == ty {
                assert(canvas_pixel(after, a, b, x, y) == rgba(pixel(t1, x, y)));
                assert(canvas_pixel(before, a, b, x, y) == rgba(pixel(t0, x, y)));
            }
        }
        if changed {
            let i = choose|i: int|
                0 <= i < entries@.len() && rgba(
                    pixel(t1, (#[trigger] entries@[i]).0 as int, entries@[i].1 as int),
                ) != rgba(pixel(t0, entries@[i].0 as int, entries@[i].1 as int));
            let (x, y) = (entries@[i].0 as int, entries@[i].1 as int);
            assert(canvas_pixel(after, tx, ty, x, y) == rgba(pixel(t1, x, y)));
            assert(canvas_pixel(before, tx, ty, x, y) == rgba(pixel(t0, x, y)));
        } else {
            assert forall|a: i32, b: i32, x: int, y: int|
                0 <= x < 64 && 0 <= y < 64 implies #[trigger] canvas_pixel(after, a, b, x, y)
                == canvas_pixel(before, a, b, x, y) by {
                if a == tx && b == ty {
                    assert(canvas_pixel(after, a, b, x, y) == rgba(pixel(t1, x, y)));
                    assert(canvas_pixel(before, a, b, x, y) == rgba(pixel(t0, x, y)));
                    let m = mask_at(local_shape, reach, x, y);
                    if m != 0 {
                        assert(lists(entries@, x, y, m));
                    }
                }
            }
        }
    }
    changed
}

/// What changes on one tile after others were drawn on.
proof fn lemma_next_differs(
    b0: Map<(i32, i32), TilePixels>,
    b1: Map<(i32, i32), TilePixels>,
    b2: Map<(i32, i32), TilePixels>,
    dab: Dab,
    turn: Turn,
    range: TileRange,
    tx: i32,
    ty: i32,
)
    requires
        drawn_on(b0, b1, dab, turn, earlier(range, tx as int, ty as int)),
        drawn_on(b1, b2, dab, turn, only(tx, ty)),
    ensures
        differs(b0, b2) <==> differs(b0, b1) || differs(b1, b2),
{
    assert forall|a: i32, b: i32, x: int, y: int| 0 <= x < 64 && 0 <= y < 64 implies {
        let p = #[trigger] canvas_pixel(b1, a, b, x, y);
        p == canvas_pixel(b0, a, b, x, y) || p == canvas_pixel(b2, a, b, x, y)
    } by {
        if a != tx || b != ty {
            assert(canvas_pixel(b2, a, b, x, y) == canvas_pixel(b1, a, b, x, y));
        }
    }
    if differs(b0, b1) {
        let (a, b, x, y) = choose|a: i32, b: i32, x: int, y: int|
            0 <= x < 64 && 0 <= y < 64 && #[trigger] canvas_pixel(b1, a, b, x, y) != canvas_pixel(
                b0,
                a,
                b,
                x,
                y,
            );
        assert(canvas_pixel(b2, a, b, x, y) != canvas_pixel(b0, a, b, x, y));
    }
    if differs(b1, b2) {
        let (a, b, x, y) = choose|a: i32, b: i32, x: int, y: int|
            0 <= x < 64 && 0 <= y < 64 && #[trigger] canvas_pixel(b2, a, b, x, y) != canvas_pixel(
                b1,
                a,
                b,
                x,
                y,
            );
        assert(canvas_pixel(b1, a, b, x, y) == canvas_pixel(b0, a, b, x, y));
    }
    if differs(b0, b2) {
        let (a, b, x, y) = choose|a: i32, b: i32, x: int, y: int|
            0 <= x < 64 && 0 <= y < 64 && #[trigger] canvas_pixel(b2, a, b, x, y) != canvas_pixel(
                b0,
                a,
                b,
                x,
                y,
            );
        assert(canvas_pixel(b1, a, b, x, y) == canvas_pixel(b1, a, b, x, y));
    }
}

proof fn lemma_next_tile(
    b0: Map<(i32, i32), TilePixels>,
    b1: Map<(i32, i32), TilePixels>,
    b2: Map<(i32, i32), TilePixels>,
    dab: Dab,
    turn: Turn,
    range: TileRange,
    tx: i32,
    ty: i32,
)
    requires
        range.contains(tx as int, ty as int),
        drawn_on(b0, b1, dab, turn, earlier(range, tx as int, ty as int)),
        drawn_on(b1, b2, dab, turn, only(tx, ty)),
    ensures
        drawn_on(b0, b2, dab, turn, earlier(range, tx + 1, ty as int)),
{
    assert forall|a: i32, b: i32|
        #![trigger b2.contains_key((a, b))]
        b2.contains_key((a, b)) <==> b0.contains_key((a, b)) || ((earlier(
            range,
            tx + 1,
            ty as int,
        ))(a, b) && touches(dab, turn, a as int, b as int)) by {
        assert(b1.contains_key((a, b)) <==> b0.contains_key((a, b)) || ((earlier(
            range,
            tx as int,
            ty as int,
        ))(a, b) && touches(dab, turn, a as int, b as int)));
    }
    assert forall|a: i32, b: i32, x: int, y: int|
        0 <= x < 64 && 0 <= y < 64 implies #[trigger] canvas_pixel(b2, a, b, x, y) == (if (earlier(
        range,
        tx + 1,
        ty as int,
    ))(a, b) && touches(dab, turn, a as int, b as int) {
        drawn(dab, canvas_pixel(b0, a, b, x, y), cover(dab, turn, a as int, b as int, x, y))
    } else {
        canvas_pixel(b0, a, b, x, y)
    }) by {
        assert(canvas_pixel(b1, a, b, x, y) == canvas_pixel(b1, a, b, x, y));
    }
}

proof fn lemma_next_record(
    b0: Option<Set<(i32, i32)>>,
    b1: Option<Set<(i32, i32)>>,
    b2: Option<Set<(i32, i32)>>,
    dab: Dab,
    turn: Turn,
    range: TileRange,
    tx: i32,
    ty: i32,
)
    requires
        range.contains(tx as int, ty as int),
        recorded(b0, b1, dab, turn, earlier(range, tx as int, ty as int)),
        recorded(b1, b2, dab, turn, only(tx, ty)),
    ensures
        recorded(b0, b2, dab, turn, earlier(range, tx + 1, ty as int)),
{
    if b0 is Some {
        assert forall|a: i32, b: i32| #[trigger] b2->0.contains((a, b)) <==> b0->0.contains((a, b))
            || ((earlier(range, tx + 1, ty as int))(a, b) && touches(
            dab,
            turn,
            a as int,
            b as int,
        )) by {
            assert(b1->0.contains((a, b)) <==> b0->0.contains((a, b)) || ((earlier(
                range,
                tx as int,
                ty as int,
            ))(a, b) && touches(dab, turn, a as int, b as int)));
        }
    }
}

/// Two ways of saying which tiles are done.
proof fn lemma_same_tiles(
    b0: Map<(i32, i32), TilePixels>,
    b1: Map<(i32, i32), TilePixels>,
    r0: Option<Set<(i32, i32)>>,
    r1: Option<Set<(i32, i32)>>,
    dab: Dab,
    turn: Turn,
    f: spec_fn(i32, i32) -> bool,
    g: spec_fn(i32, i32) -> bool,
)
    requires
        forall|a: i32, b: i32|
            #[trigger] touches(dab, turn, a as int, b as int) ==> f(a, b) == g(a, b),
        drawn_on(b0, b1, dab, turn, f),
        recorded(r0, r1, dab, turn, f),
    ensures
        drawn_on(b0, b1, dab, turn, g),
        recorded(r0, r1, dab, turn, g),
{
}

/// A canvas before and after a dab.
pub open spec fn dab_drawn(
    before: Map<(i32, i32), TilePixels>,
    after: Map<(i32, i32), TilePixels>,
    dab: Dab,
    turn: Turn,
) -> bool {
    if dab.degenerate_spec() {
        after == before
    } else {
        drawn_on(before, after, dab, turn, everywhere())
    }
}

/// A record of lent tiles before and after a dab.
pub open spec fn dab_recorded(
    before: Option<Set<(i32, i32)>>,
    after: Option<Set<(i32, i32)>>,
    dab: Dab,
    turn: Turn,
) -> bool {
    if dab.degenerate_spec() {
        after == before
    } else {
        recorded(before, after, dab, turn, everywhere())
    }
}

/// Draws a dab that points in the direction `turn`, through all the blend
/// modes that it asks for.  Returns whether any pixel was changed.
pub fn draw_dab_default<S: TiledSurface>(surface: &mut S, dab: &Dab, turn: Turn) -> (r: bool)
    requires
        old(surface).wf(),
    ensures
        final(surface).wf(),
        r == differs(old(surface).tiles(), final(surface).tiles()),
        dab_drawn(old(surface).tiles(), final(surface).tiles(), *dab, turn),
        dab_recorded(old(surface).lent(), final(surface).lent(), *dab, turn),
{
    if dab.degenerate() {
        return false;
    }
    let one = Single { bits: ONE };
    let reach = if (Single { bits: 0 }).lt(dab.anti_aliasing) {
        dab.radius.plus(one).plus(dab.anti_aliasing)
    } else {
        dab.radius.plus(one)
    };
    let range: TileRange = tile_range(dab.x, dab.y, reach);
    let s: Source = source_of(dab);
    let ps: Vec<Pass> = plan(dab);
    let ghost b0 = surface.tiles();
    let ghost l0 = surface.lent();
    let mut any: bool = false;
    let mut ty: i32 = range.ty0;
    while ty <= range.ty1
        invariant
            surface.wf(),
            reach == fringe(*dab),
            range == tiles_around(dab.x, dab.y, reach),
            -0x200_0000 <= range.tx0,
            range.tx1 <= 0x1ff_ffff,
            -0x200_0000 <= range.ty0 <= ty,
            range.ty1 <= 0x1ff_ffff,
            s == source(*dab),
            s.wf(),
            ps@ == passes(*dab),
            forall|i: int| 0 <= i < ps@.len() ==> (#[trigger] ps@[i]).wf(),
            drawn_on(b0, surface.tiles(), *dab, turn, earlier(range, range.tx0 as int, ty as int)),
            recorded(l0, surface.lent(), *dab, turn, earlier(range, range.tx0 as int, ty as int)),
            any == differs(b0, surface.tiles()),
        decreases range.ty1 + 1 - ty,
    {
        let mut tx: i32 = range.tx0;
        while tx <= range.tx1
            invariant
                surface.wf(),
                reach == fringe(*dab),
                range == tiles_around(dab.x, dab.y, reach),
                -0x200_0000 <= range.tx0 <= tx,
                range.tx1 <= 0x1ff_ffff,
                -0x200_0000 <= range.ty0 <= ty <= range.ty1,
                range.ty1 <= 0x1ff_ffff,
                s == source(*dab),
                s.wf(),
                ps@ == passes(*dab),
                forall|i: int| 0 <= i < ps@.len() ==> (#[trigger] ps@[i]).wf(),
                drawn_on(b0, surface.tiles(), *dab, turn, earlier(range, tx as int, ty as int)),
                recorded(l0, surface.lent(), *dab, turn, earlier(range, tx as int, ty as int)),
                any == differs(b0, surface.tiles()),
            decreases range.tx1 + 1 - tx,
        {
            let ghost b1 = surface.tiles();
            let ghost l1 = surface.lent();
            let hit: bool = draw_on_tile(surface, dab, turn, tx, ty, reach, s, &ps);
            proof {
                lemma_next_differs(b0, b1, surface.tiles(), *dab, turn, range, tx, ty);
                lemma_next_tile(b0, b1, surface.tiles(), *dab, turn, range, tx, ty);
                lemma_next_record(l0, l1, surface.lent(), *dab, turn, range, tx, ty);
            }
            if hit {
                any = true;
            }
            tx += 1;
        }
        proof {
            lemma_same_tiles(
                b0,
                surface.tiles(),
                l0,
                surface.lent(),
                *dab,
                turn,
                earlier(range, tx as int, ty as int),
                earlier(range, range.tx0 as int, ty + 1),
            );
        }
        ty += 1;
    }
    proof {
        lemma_same_tiles(
            b0,
            surface.tiles(),
            l0,
            surface.lent(),
            *dab,
            turn,
            earlier(range, range.tx0 as int, ty as int),
            everywhere(),
        );
    }
    any
}

/// The passes that paint have opacities of at most one.
pub proof fn lemma_painting(dab: Dab, share: Single, pigment: bool)
    requires
        in_unit(share),
    ensures
        forall|i: int|
            0 <= i < painting(dab, share, pigment).len() ==> (#[trigger] painting(
                dab,
                share,
                pigment,
            )[i]).wf(),
{
    let opaque = unit(dab.opaque);
    let lock = unit(dab.lock_alpha);
    let colorize = rest(unit(dab.colorize));
    let posterize = rest(unit(dab.posterize));
    lemma_unit_in_unit(dab.opaque);
    lemma_unit_in_unit(dab.lock_alpha);
    lemma_unit_in_unit(dab.colorize);
    lemma_unit_in_unit(dab.posterize);
    lemma_unit_in_unit(dab.alpha_eraser);
    lemma_rest_in_unit(lock);
    lemma_rest_in_unit(unit(dab.colorize));
    lemma_rest_in_unit(unit(dab.posterize));
    lemma_times_in_unit(rest(lock), colorize);
    lemma_times_in_unit(rest(lock).times_spec(colorize), posterize);
    lemma_times_in_unit(normal_share(dab), opaque);
    lemma_times_in_unit(normal_share(dab).times_spec(opaque), share);
    lemma_scaled_at_most_one(normal_share(dab).times_spec(opaque).times_spec(share));
    lemma_scaled_at_most_one(unit(dab.alpha_eraser));
    lemma_times_in_unit(lock, opaque);
    lemma_times_in_unit(lock.times_spec(opaque), colorize);
    lemma_times_in_unit(lock.times_spec(opaque).times_spec(colorize), posterize);
    let locked = lock.times_spec(opaque).times_spec(colorize).times_spec(posterize);
    lemma_times_in_unit(locked, share);
    lemma_scaled_at_most_one(locked.times_spec(share));
}

/// All passes of a dab can be run.
pub proof fn lemma_passes(dab: Dab)
    ensures
        forall|i: int| 0 <= i < passes(dab).len() ==> (#[trigger] passes(dab)[i]).wf(),
{
    let paint = unit(dab.paint);
    lemma_unit_in_unit(dab.paint);
    lemma_rest_in_unit(paint);
    lemma_painting(dab, rest(paint), false);
    lemma_painting(dab, paint, true);
    lemma_unit_in_unit(dab.opaque);
    lemma_unit_in_unit(dab.colorize);
    lemma_unit_in_unit(dab.posterize);
    lemma_times_in_unit(unit(dab.colorize), unit(dab.opaque));
    lemma_times_in_unit(unit(dab.posterize), unit(dab.opaque));
    lemma_scaled_at_most_one(unit(dab.colorize).times_spec(unit(dab.opaque)));
    lemma_scaled_at_most_one(unit(dab.posterize).times_spec(unit(dab.opaque)));
    lemma_levels(dab);
}

/// The colour of a dab is in range.
pub proof fn lemma_source(dab: Dab)
    ensures
        source(dab).wf(),
{
    lemma_unit_in_unit(dab.color.r);
    lemma_unit_in_unit(dab.color.g);
    lemma_unit_in_unit(dab.color.b);
    lemma_scaled_at_most_one(unit(dab.color.r));
    lemma_scaled_at_most_one(unit(dab.color.g));
    lemma_scaled_at_most_one(unit(dab.color.b));
}

/// A pixel is covered at most fully.
pub proof fn lemma_cover(dab: Dab, turn: Turn, tx: int, ty: int, x: int, y: int)
    ensures
        cover(dab, turn, tx, ty, x, y) <= 32768,
{
    lemma_inverse_square_has_no_sign(dab.radius);
    law_coverage_is_at_most_one(shape(dab, turn, tx, ty), x as i32, y as i32);
}

proof fn lemma_passed_storable(ps: Seq<Pass>, n: nat, p: Rgba, m: int, s: Source)
    requires
        n <= ps.len(),
        forall|i: int| 0 <= i < ps.len() ==> (#[trigger] ps[i]).wf(),
        storable(p),
        0 <= m <= 32768,
        s.wf(),
    ensures
        storable(passed(ps, n, p, m, s)),
    decreases n,
{
    if n > 0 {
        lemma_passed_storable(ps, (n - 1) as nat, p, m, s);
        let q = passed(ps, (n - 1) as nat, p, m, s);
        let bands = source_spectrum(s);
        assert(ps[n - 1].wf());
        match ps[n - 1] {
            Pass::Normal { opacity } => law_pixels_stay_storable(
                q,
                m,
                s,
                bands,
                0,
                opacity as int,
                1,
            ),
            Pass::NormalAndEraser { color_a, opacity } => law_pixels_stay_storable(
                q,
                m,
                s,
                bands,
                color_a as int,
                opacity as int,
                1,
            ),
            Pass::LockAlpha { opacity } => law_pixels_stay_storable(
                q,
                m,
                s,
                bands,
                0,
                opacity as int,
                1,
            ),
            Pass::NormalPaint { opacity } => law_pixels_stay_storable(
                q,
                m,
                s,
                bands,
                0,
                opacity as int,
                1,
            ),
            Pass::NormalAndEraserPaint { color_a, opacity } => law_pixels_stay_storable(
                q,
                m,
                s,
                bands,
                color_a as int,
                opacity as int,
                1,
            ),
            Pass::LockAlphaPaint { opacity } => law_pixels_stay_storable(
                q,
                m,
                s,
                bands,
                0,
                opacity as int,
                1,
            ),
            Pass::Colorize { opacity } => law_pixels_stay_storable(
                q,
                m,
                s,
                bands,
                0,
                opacity as int,
                1,
            ),
            Pass::Posterize { opacity, num } => law_pixels_stay_storable(
                q,
                m,
                s,
                bands,
                0,
                opacity as int,
                num as int,
            ),
        }
    }
}

/// What a dab makes of a pixel can be stored.
pub proof fn lemma_drawn_storable(dab: Dab, p: Rgba, m: u32)
    requires
        storable(p),
        m <= 32768,
    ensures
        storable(drawn(dab, p, m)),
{
    lemma_passes(dab);
    lemma_source(dab);
    lemma_passed_storable(passes(dab), passes(dab).len(), p, m as int, source(dab));
}

/// A dab that posterizes does so last, in a pass of its own, however much of it
/// is pigment or colours.
pub proof fn law_posterizing_comes_last(dab: Dab)
    requires
        !unit(dab.posterize).same_spec(Single { bits: 0 }),
    ensures
        passes(dab).len() > 0,
        passes(dab).last() == (Pass::Posterize {
            opacity: fixed(unit(dab.posterize).times_spec(unit(dab.opaque))),
            num: levels(dab),
        }),
{
}

} // verus!
