//! Drawing dabs on tiles.
use crate::blend::{
    colorize, colorize_pixel, lock_alpha, lock_alpha_paint, lock_alpha_paint_pixel,
    lock_alpha_pixel, normal, normal_and_eraser, normal_and_eraser_paint,
    normal_and_eraser_paint_pixel, normal_and_eraser_pixel, normal_paint, normal_paint_pixel,
    normal_pixel, posterize, posterize_pixel, rgba, source_spectrum, spectrum_of_source, Rgba,
    Source,
};
use crate::fix15::FIX15_ONE;
use crate::mask::{ascending, place, MaskEntry};
use crate::tile::{pixel, TilePixels};
use vstd::prelude::*;

pub use crate::draw::draw_dab_default;
pub use crate::pigment::get_color_pigment_default;
pub use crate::rand::reset_get_color_rng;
pub use crate::sampling::{get_color_default, get_color_via_sample};

verus! {

/// What the first `n` entries make of the pixel at `(x, y)`, when each entry
/// for that pixel changes it by `f`.
pub open spec fn painted(
    p: Rgba,
    entries: Seq<MaskEntry>,
    n: nat,
    x: int,
    y: int,
    f: spec_fn(Rgba, int) -> Rgba,
) -> Rgba
    decreases n,
{
    if n == 0 {
        p
    } else {
        let q = painted(p, entries, (n - 1) as nat, x, y, f);
        let e = entries[n - 1];
        if e.0 == x && e.1 == y {
            f(q, e.2 as int)
        } else {
            q
        }
    }
}

/// Entries that lie in a tile and cover their pixels at most fully.
pub open spec fn in_tile(entries: Seq<MaskEntry>) -> bool {
    forall|i: int|
        0 <= i < entries.len() ==> (#[trigger] entries[i]).0 < 64 && entries[i].1 < 64
            && entries[i].2 <= 32768
}

/// Every pixel of a tile is changed by its entries.
pub open spec fn tile_painted(
    before: TilePixels,
    after: TilePixels,
    entries: Seq<MaskEntry>,
    f: spec_fn(Rgba, int) -> Rgba,
) -> bool {
    forall|x: int, y: int|
        0 <= x < 64 && 0 <= y < 64 ==> rgba(#[trigger] pixel(after, x, y)) == painted(
            rgba(pixel(before, x, y)),
            entries,
            entries.len(),
            x,
            y,
            f,
        )
}

/// A pixel with one entry is changed once, the others not at all.
pub proof fn lemma_painted_once(
    p: Rgba,
    entries: Seq<MaskEntry>,
    n: nat,
    x: int,
    y: int,
    f: spec_fn(Rgba, int) -> Rgba,
    i: int,
)
    requires
        ascending(entries),
        in_tile(entries),
        n <= entries.len(),
        0 <= i < entries.len(),
        entries[i].0 == x,
        entries[i].1 == y,
    ensures
        painted(p, entries, n, x, y, f) == (if i < n {
            f(p, entries[i].2 as int)
        } else {
            p
        }),
    decreases n,
{
    if n > 0 {
        lemma_painted_once(p, entries, (n - 1) as nat, x, y, f, i);
        let e = entries[n - 1];
        if n - 1 != i && e.0 == x && e.1 == y {
            assert(place(e) == place(entries[i]));
        }
    }
}

pub proof fn lemma_not_painted(
    p: Rgba,
    entries: Seq<MaskEntry>,
    n: nat,
    x: int,
    y: int,
    f: spec_fn(Rgba, int) -> Rgba,
)
    requires
        n <= entries.len(),
        forall|i: int|
            0 <= i < entries.len() ==> (#[trigger] entries[i]).0 != x || entries[i].1 != y,
    ensures
        painted(p, entries, n, x, y, f) == p,
    decreases n,
{
    if n > 0 {
        lemma_not_painted(p, entries, (n - 1) as nat, x, y, f);
    }
}

/// Changes the pixel of every entry in turn.
fn for_each_entry<F: Fn([u16; 4], u32) -> [u16; 4]>(
    tile: &mut TilePixels,
    entries: &Vec<MaskEntry>,
    f: F,
    Ghost(g): Ghost<spec_fn(Rgba, int) -> Rgba>,
)
    requires
        in_tile(entries@),
        forall|p: [u16; 4], m: u32| m <= 32768 ==> call_requires(f, (p, m)),
        forall|p: [u16; 4], m: u32, q: [u16; 4]|
            m <= 32768 && call_ensures(f, (p, m), q) ==> rgba(q) == g(rgba(p), m as int),
    ensures
        tile_painted(*old(tile), *final(tile), entries@, g),
{
    let ghost before = *tile;
    let mut i: usize = 0;
    while i < entries.len()
        invariant
            i <= entries@.len(),
            in_tile(entries@),
            forall|p: [u16; 4], m: u32| m <= 32768 ==> call_requires(f, (p, m)),
            forall|p: [u16; 4], m: u32, q: [u16; 4]|
                m <= 32768 && call_ensures(f, (p, m), q) ==> rgba(q) == g(rgba(p), m as int),
            forall|x: int, y: int|
                0 <= x < 64 && 0 <= y < 64 ==> rgba(#[trigger] pixel(*tile, x, y)) == painted(
                    rgba(pixel(before, x, y)),
                    entries@,
                    i as nat,
                    x,
                    y,
                    g,
                ),
        decreases entries@.len() - i,
    {
        let (lx, ly, mask): MaskEntry = entries[i];
        let ghost last = *tile;
        let p: [u16; 4] = tile[ly][lx];
        assert(p == pixel(last, lx as int, ly as int));
        let q: [u16; 4] = f(p, mask);
        tile[ly][lx] = q;
        proof {
            assert forall|x: int, y: int| 0 <= x < 64 && 0 <= y < 64 implies rgba(
                #[trigger] pixel(*tile, x, y),
            ) == painted(rgba(pixel(before, x, y)), entries@, (i + 1) as nat, x, y, g) by {
                if x == lx && y == ly {
                    assert(pixel(*tile, x, y) == q);
                } else {
                    assert(pixel(*tile, x, y) == pixel(last, x, y));
                }
            }
        }
        i += 1;
    }
}

/// Source over destination.
pub fn blend_normal(tile: &mut TilePixels, entries: &Vec<MaskEntry>, s: Source, opacity: u32)
    requires
        in_tile(entries@),
        s.wf(),
        opacity <= FIX15_ONE,
    ensures
        tile_painted(
            *old(tile),
            *final(tile),
            entries@,
            |p: Rgba, m: int| normal(p, m, s, opacity as int),
        ),
{
    let f = |p: [u16; 4], m: u32| -> (q: [u16; 4])
        requires
            m <= 32768,
        ensures
            rgba(q) == normal(rgba(p), m as int, s, opacity as int),
        { normal_pixel(p, m, s, opacity) };
    for_each_entry(
        tile,
        entries,
        f,
        Ghost(|p: Rgba, m: int| normal(p, m, s, opacity as int)),
    );
}

/// Source over destination, erasing where the source is transparent.
pub fn blend_normal_and_eraser(
    tile: &mut TilePixels,
    entries: &Vec<MaskEntry>,
    s: Source,
    color_a: u32,
    opacity: u32,
)
    requires
        in_tile(entries@),
        s.wf(),
        color_a <= FIX15_ONE,
        opacity <= FIX15_ONE,
    ensures
        tile_painted(
            *old(tile),
            *final(tile),
            entries@,
            |p: Rgba, m: int| normal_and_eraser(p, m, s, color_a as int, opacity as int),
        ),
{
    let f = |p: [u16; 4], m: u32| -> (q: [u16; 4])
        requires
            m <= 32768,
        ensures
            rgba(q) == normal_and_eraser(rgba(p), m as int, s, color_a as int, opacity as int),
        { normal_and_eraser_pixel(p, m, s, color_a, opacity) };
    for_each_entry(
        tile,
        entries,
        f,
        Ghost(|p: Rgba, m: int| normal_and_eraser(p, m, s, color_a as int, opacity as int)),
    );
}

/// Source into destination, which keeps its alpha.
pub fn blend_lock_alpha(
    tile: &mut TilePixels,
    entries: &Vec<MaskEntry>,
    s: Source,
    opacity: u32,
)
    requires
        in_tile(entries@),
        s.wf(),
        opacity <= FIX15_ONE,
    ensures
        tile_painted(
            *old(tile),
            *final(tile),
            entries@,
            |p: Rgba, m: int| lock_alpha(p, m, s, opacity as int),
        ),
{
    let f = |p: [u16; 4], m: u32| -> (q: [u16; 4])
        requires
            m <= 32768,
        ensures
            rgba(q) == lock_alpha(rgba(p), m as int, s, opacity as int),
        { lock_alpha_pixel(p, m, s, opacity) };
    for_each_entry(
        tile,
        entries,
        f,
        Ghost(|p: Rgba, m: int| lock_alpha(p, m, s, opacity as int)),
    );
}

/// Source mixed as pigment into destination.
pub fn blend_lock_alpha_paint(
    tile: &mut TilePixels,
    entries: &Vec<MaskEntry>,
    s: Source,
    opacity: u32,
)
    requires
        in_tile(entries@),
        s.wf(),
        opacity <= FIX15_ONE,
    ensures
        tile_painted(
            *old(tile),
            *final(tile),
            entries@,
            |p: Rgba, m: int| lock_alpha_paint(p, m, s, source_spectrum(s), opacity as int),
        ),
{
    let bands = spectrum_of_source(s);
    let f = |p: [u16; 4], m: u32| -> (q: [u16; 4])
        requires
            m <= 32768,
        ensures
            rgba(q) == lock_alpha_paint(rgba(p), m as int, s, source_spectrum(s), opacity as int),
        { lock_alpha_paint_pixel(p, m, s, &bands, opacity) };
    for_each_entry(
        tile,
        entries,
        f,
        Ghost(|p: Rgba, m: int| lock_alpha_paint(p, m, s, source_spectrum(s), opacity as int)),
    );
}

/// Destination in the colour of the source.
pub fn blend_color(
    tile: &mut TilePixels,
    entries: &Vec<MaskEntry>,
    s: Source,
    opacity: u32,
)
    requires
        in_tile(entries@),
        s.wf(),
        opacity <= FIX15_ONE,
    ensures
        tile_painted(
            *old(tile),
            *final(tile),
            entries@,
            |p: Rgba, m: int| colorize(p, m, s, opacity as int),
        ),
{
    let f = |p: [u16; 4], m: u32| -> (q: [u16; 4])
        requires
            m <= 32768,
        ensures
            rgba(q) == colorize(rgba(p), m as int, s, opacity as int),
        { colorize_pixel(p, m, s, opacity) };
    for_each_entry(
        tile,
        entries,
        f,
        Ghost(|p: Rgba, m: int| colorize(p, m, s, opacity as int)),
    );
}

/// Destination towards a number of levels.
pub fn blend_posterize(
    tile: &mut TilePixels,
    entries: &Vec<MaskEntry>,
    opacity: u32,
    posterize_num: u32,
)
    requires
        in_tile(entries@),
        opacity <= FIX15_ONE,
        1 <= posterize_num <= 128,
    ensures
        tile_painted(
            *old(tile),
            *final(tile),
            entries@,
            |p: Rgba, m: int| posterize(p, m, opacity as int, posterize_num as int),
        ),
{
    let f = |p: [u16; 4], m: u32| -> (q: [u16; 4])
        requires
            m <= 32768,
        ensures
            rgba(q) == posterize(rgba(p), m as int, opacity as int, posterize_num as int),
        { posterize_pixel(p, m, opacity, posterize_num) };
    for_each_entry(
        tile,
        entries,
        f,
        Ghost(|p: Rgba, m: int| posterize(p, m, opacity as int, posterize_num as int)),
    );
}

/// Source and destination mixed as pigments.
pub fn blend_normal_paint(
    tile: &mut TilePixels,
    entries: &Vec<MaskEntry>,
    s: Source,
    opacity: u32,
)
    requires
        in_tile(entries@),
        s.wf(),
        opacity <= FIX15_ONE,
    ensures
        tile_painted(
            *old(tile),
            *final(tile),
            entries@,
            |p: Rgba, m: int| normal_paint(p, m, s, source_spectrum(s), opacity as int),
        ),
{
    let bands = spectrum_of_source(s);
    let f = |p: [u16; 4], m: u32| -> (q: [u16; 4])
        requires
            m <= 32768,
        ensures
            rgba(q) == normal_paint(rgba(p), m as int, s, source_spectrum(s), opacity as int),
        { normal_paint_pixel(p, m, s, &bands, opacity) };
    for_each_entry(
        tile,
        entries,
        f,
        Ghost(|p: Rgba, m: int| normal_paint(p, m, s, source_spectrum(s), opacity as int)),
    );
}

/// Source mixed as pigment over destination, erasing where the source is
/// transparent.
pub fn blend_normal_and_eraser_paint(
    tile: &mut TilePixels,
    entries: &Vec<MaskEntry>,
    s: Source,
    color_a: u32,
    opacity: u32,
)
    requires
        in_tile(entries@),
        s.wf(),
        color_a <= FIX15_ONE,
        opacity <= FIX15_ONE,
    ensures
        tile_painted(
            *old(tile),
            *final(tile),
            entries@,
            |p: Rgba, m: int|
                normal_and_eraser_paint(
                    p,
                    m,
                    s,
                    source_spectrum(s),
                    color_a as int,
                    opacity as int,
                ),
        ),
{
    let bands = spectrum_of_source(s);
    let f = |p: [u16; 4], m: u32| -> (q: [u16; 4])
        requires
            m <= 32768,
        ensures
            rgba(q) == normal_and_eraser_paint(
                rgba(p),
                m as int,
                s,
                source_spectrum(s),
                color_a as int,
                opacity as int,
            ),
        { normal_and_eraser_paint_pixel(p, m, s, &bands, color_a, opacity) };
    for_each_entry(
        tile,
        entries,
        f,
        Ghost(
            |p: Rgba, m: int|
                normal_and_eraser_paint(
                    p,
                    m,
                    s,
                    source_spectrum(s),
                    color_a as int,
                    opacity as int,
                ),
        ),
    );
}

} // verus!
