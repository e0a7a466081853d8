//! What a dab makes of a pixel, in whole numbers: 32768 is one, and results are
//! exact to two steps.
use crate::blend::{
    joined, level, lock_alpha, normal, normal_and_eraser, posterize, shown, Rgba, Source,
};
use crate::means::size;
use vstd::arithmetic::div_mod::*;
use vstd::prelude::*;

verus! {

/// Whether a channel `out` is `dst` with the part `cover * opacity` of it
/// replaced by `src`, within two steps.
pub open spec fn replaced(dst: int, src: int, cover: int, opacity: int, out: int) -> bool {
    let part = cover * opacity;
    size(0x4000_0000 * out - (part * src + (0x4000_0000 - part) * dst)) <= 2 * 0x4000_0000
}

/// What is shown of a source, to within a step.
proof fn lemma_part(cover: int, opacity: int)
    requires
        0 <= cover <= 32768,
        0 <= opacity <= 32768,
    ensures
        0 <= shown(cover, opacity) <= 32768,
        0 <= cover * opacity - 32768 * shown(cover, opacity) < 32768,
{
    assert(0 <= cover * opacity <= 0x4000_0000) by (nonlinear_arith)
        requires
            0 <= cover <= 32768,
            0 <= opacity <= 32768,
    ;
}

/// A joined channel, to within two steps.
proof fn lemma_replaced(dst: int, src: int, cover: int, opacity: int)
    requires
        0 <= cover <= 32768,
        0 <= opacity <= 32768,
        0 <= dst <= 32768,
        0 <= src <= 32768,
    ensures
        ({
            let over = shown(cover, opacity);
            replaced(dst, src, cover, opacity, joined(src, over, dst, 32768 - over))
        }),
{
    let over = shown(cover, opacity);
    let part = cover * opacity;
    let out = joined(src, over, dst, 32768 - over);
    lemma_part(cover, opacity);
    let x = over * src + (32768 - over) * dst;
    let d = src - dst;
    let e = part - 32768 * over;
    assert(0 <= x - 32768 * out < 32768);
    assert(part * src + (0x4000_0000 - part) * dst == 32768 * x + e * d) by (nonlinear_arith)
        requires
            x == over * src + (32768 - over) * dst,
            d == src - dst,
            e == part - 32768 * over,
    ;
    assert(-0x4000_0000 <= e * d <= 0x4000_0000) by (nonlinear_arith)
        requires
            0 <= e < 32768,
            -32768 <= d <= 32768,
    ;
}

/// A pixel and a source in range.
pub open spec fn paintable(p: Rgba, s: Source) -> bool {
    &&& 0 <= p.r <= 32768
    &&& 0 <= p.g <= 32768
    &&& 0 <= p.b <= 32768
    &&& 0 <= p.a <= 32768
    &&& s.wf()
}

/// Plain painting replaces, of every channel, as much as is covered times the
/// opacity by that same channel of the source, and of alpha by full alpha.
pub proof fn law_painting_replaces_what_it_covers(p: Rgba, cover: int, s: Source, opacity: int)
    requires
        paintable(p, s),
        0 <= cover <= 32768,
        0 <= opacity <= 32768,
    ensures
        ({
            let q = normal(p, cover, s, opacity);
            &&& replaced(p.r, s.r as int, cover, opacity, q.r)
            &&& replaced(p.g, s.g as int, cover, opacity, q.g)
            &&& replaced(p.b, s.b as int, cover, opacity, q.b)
            &&& replaced(p.a, 32768, cover, opacity, q.a)
        }),
{
    let over = shown(cover, opacity);
    lemma_replaced(p.r, s.r as int, cover, opacity);
    lemma_replaced(p.g, s.g as int, cover, opacity);
    lemma_replaced(p.b, s.b as int, cover, opacity);
    lemma_replaced(p.a, 32768, cover, opacity);
    assert((over * 32768 + (32768 - over) * p.a) / 32768 == over + (32768 - over) * p.a / 32768) by {
        lemma_hoist_over_denominator((32768 - over) * p.a, over, 32768);
    }
}

/// A source of some alpha replaces what it covers by its own channels times its
/// alpha: a transparent one takes away.
pub proof fn law_erasing_replaces_by_the_alpha_of_the_source(
    p: Rgba,
    cover: int,
    s: Source,
    color_a: int,
    opacity: int,
)
    requires
        paintable(p, s),
        0 <= cover <= 32768,
        0 <= opacity <= 32768,
        0 <= color_a <= 32768,
    ensures
        ({
            let q = normal_and_eraser(p, cover, s, color_a, opacity);
            let of_alpha = |c: int| c * color_a / 32768;
            &&& nearly_replaced(p.r, of_alpha(s.r as int), cover, opacity, q.r)
            &&& nearly_replaced(p.g, of_alpha(s.g as int), cover, opacity, q.g)
            &&& nearly_replaced(p.b, of_alpha(s.b as int), cover, opacity, q.b)
            &&& nearly_replaced(p.a, color_a, cover, opacity, q.a)
        }),
{
    let over = shown(cover, opacity);
    lemma_erased(p.r, s.r as int, cover, color_a, opacity);
    lemma_erased(p.g, s.g as int, cover, color_a, opacity);
    lemma_erased(p.b, s.b as int, cover, color_a, opacity);
    lemma_erased(p.a, 32768, cover, color_a, opacity);
    let a = over * color_a / 32768;
    assert((a * 32768 + (32768 - over) * p.a) / 32768 == a + (32768 - over) * p.a / 32768) by {
        lemma_hoist_over_denominator((32768 - over) * p.a, a, 32768);
    }
    assert(32768 * color_a / 32768 == color_a);
}

/// Like [`replaced`], within four steps.
pub open spec fn nearly_replaced(dst: int, src: int, cover: int, opacity: int, out: int) -> bool {
    let part = cover * opacity;
    size(0x4000_0000 * out - (part * src + (0x4000_0000 - part) * dst)) <= 4 * 0x4000_0000
}

proof fn lemma_erased(dst: int, src: int, cover: int, alpha: int, opacity: int)
    requires
        0 <= cover <= 32768,
        0 <= opacity <= 32768,
        0 <= alpha <= 32768,
        0 <= dst <= 32768,
        0 <= src <= 32768,
    ensures
        ({
            let over = shown(cover, opacity);
            nearly_replaced(
                dst,
                src * alpha / 32768,
                cover,
                opacity,
                joined(src, over * alpha / 32768, dst, 32768 - over),
            )
        }),
{
    let over = shown(cover, opacity);
    let own = src * alpha / 32768;
    lemma_part(cover, opacity);
    lemma_part(over, alpha);
    lemma_part(src, alpha);
    assert(shown(over, alpha) == over * alpha / 32768 && shown(src, alpha) == own);
    lemma_replaced(dst, own, cover, opacity);
    let a = over * alpha / 32768;
    // Alpha first or last makes less than two steps.
    let x = a * src;
    let y = over * own;
    let (e, f) = (over * alpha - 32768 * a, src * alpha - 32768 * own);
    assert(32768 * x - 32768 * y == over * f - e * src) by (nonlinear_arith)
        requires
            x == a * src,
            y == over * own,
            e == over * alpha - 32768 * a,
            f == src * alpha - 32768 * own,
    ;
    assert(0 <= over * f <= 0x4000_0000 && 0 <= e * src <= 0x4000_0000) by (nonlinear_arith)
        requires
            0 <= over <= 32768,
            0 <= f < 32768,
            0 <= src <= 32768,
            0 <= e < 32768,
    ;
    assert(size(x - y) <= 32768);
    let z = (32768 - over) * dst;
    assert(size(joined(src, a, dst, 32768 - over) - joined(own, over, dst, 32768 - over)) <= 2);
}

/// Painting with locked alpha replaces what it covers by the source with the
/// alpha of the pixel, and keeps that alpha.
pub proof fn law_locked_painting_takes_the_alpha_of_the_pixel(
    p: Rgba,
    cover: int,
    s: Source,
    opacity: int,
)
    requires
        paintable(p, s),
        0 <= cover <= 32768,
        0 <= opacity <= 32768,
    ensures
        ({
            let q = lock_alpha(p, cover, s, opacity);
            let of_alpha = |c: int| c * p.a / 32768;
            &&& nearly_replaced(p.r, of_alpha(s.r as int), cover, opacity, q.r)
            &&& nearly_replaced(p.g, of_alpha(s.g as int), cover, opacity, q.g)
            &&& nearly_replaced(p.b, of_alpha(s.b as int), cover, opacity, q.b)
            &&& q.a == p.a
        }),
{
    lemma_erased(p.r, s.r as int, cover, p.a, opacity);
    lemma_erased(p.g, s.g as int, cover, p.a, opacity);
    lemma_erased(p.b, s.b as int, cover, p.a, opacity);
}

/// Posterizing replaces what it covers by the nearest level, channel by channel.
pub proof fn law_posterizing_replaces_by_levels(p: Rgba, cover: int, opacity: int, num: int)
    requires
        0 <= p.r <= 32768,
        0 <= p.g <= 32768,
        0 <= p.b <= 32768,
        0 <= cover <= 32768,
        0 <= opacity <= 32768,
        1 <= num <= 128,
    ensures
        ({
            let q = posterize(p, cover, opacity, num);
            &&& replaced(p.r, level(p.r, num), cover, opacity, q.r)
            &&& replaced(p.g, level(p.g, num), cover, opacity, q.g)
            &&& replaced(p.b, level(p.b, num), cover, opacity, q.b)
            &&& q.a == p.a
        }),
{
    lemma_posterized(p.r, cover, opacity, num);
    lemma_posterized(p.g, cover, opacity, num);
    lemma_posterized(p.b, cover, opacity, num);
}

proof fn lemma_posterized(c: int, cover: int, opacity: int, num: int)
    requires
        0 <= c <= 32768,
        0 <= cover <= 32768,
        0 <= opacity <= 32768,
        1 <= num <= 128,
    ensures
        ({
            let over = shown(cover, opacity);
            replaced(
                c,
                level(c, num),
                cover,
                opacity,
                joined(level(c, num), over, c, 32768 - over) % 65536,
            )
        }),
{
    let over = shown(cover, opacity);
    let l = level(c, num);
    lemma_part(cover, opacity);
    assert(0 <= l <= 32768) by {
        let n = (c * num + 16384) / 32768;
        assert(0 <= c * num <= 32768 * num) by (nonlinear_arith)
            requires
                0 <= c <= 32768,
                num >= 1,
        ;
        assert(0 <= n <= num);
        assert(0 <= 32768 * n <= 32768 * num);
        lemma_div_is_ordered(0, 32768 * n, num);
        lemma_div_is_ordered(32768 * n, 32768 * num, num);
        lemma_div_by_multiple(32768, num);
    }
    lemma_replaced(c, l, cover, opacity);
    let x = over * l + (32768 - over) * c;
    assert(0 <= x <= 0x4000_0000) by (nonlinear_arith)
        requires
            x == over * l + (32768 - over) * c,
            0 <= over <= 32768,
            0 <= l <= 32768,
            0 <= c <= 32768,
    ;
}

} // verus!
