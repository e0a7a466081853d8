use hokusai::color::RgbaF32;
use hokusai::dab_surface::DabSurface;
use hokusai::fix15;
use hokusai::single::Single;
use hokusai::surface::{Dab, Turn};
use hokusai::tile::TILE_SIZE;
use hokusai::tile_mem::MemSurface;

fn s(v: f32) -> Single {
    Single { bits: v.to_bits() }
}

fn rgba(r: f32, g: f32, b: f32, a: f32) -> RgbaF32 {
    RgbaF32::new(s(r), s(g), s(b), s(a))
}

/// Straight ahead: cosine one, sine zero.
fn level() -> Turn {
    Turn { cs: s(1.0), sn: s(0.0) }
}

fn red_dab(x: f32, y: f32, radius: f32) -> Dab {
    Dab {
        x: s(x),
        y: s(y),
        radius: s(radius),
        color: rgba(1.0, 0.0, 0.0, 1.0),
        opaque: s(1.0),
        hardness: s(1.0),
        alpha_eraser: s(1.0),
        aspect_ratio: s(1.0),
        angle: s(0.0),
        lock_alpha: s(0.0),
        colorize: s(0.0),
        posterize: s(0.0),
        posterize_num: s(1.0),
        paint: s(0.0),
        anti_aliasing: s(0.0),
    }
}

#[test]
fn solid_red_dab_paints_center_red() {
    let mut s = MemSurface::new();
    s.draw_dab(&red_dab(32.0, 32.0, 5.0), level());

    let tile = s.tile(0, 0).expect("tile (0,0) must exist");
    let center = tile[32][32];
    assert!(center[0] > fix15::FIX15_MAX_U16 - 100, "red = {}", center[0]);
    assert_eq!(center[1], 0);
    assert_eq!(center[2], 0);
    assert!(center[3] > fix15::FIX15_MAX_U16 - 100, "alpha = {}", center[3]);
}

#[test]
fn dab_spans_tile_boundary() {
    let mut s = MemSurface::new();
    let x = TILE_SIZE as f32;
    s.draw_dab(&red_dab(x, 32.0, 4.0), level());

    let left = s.tile(0, 0).expect("left tile");
    let right = s.tile(1, 0).expect("right tile");
    assert!(left[32][63][0] > 0, "left edge should be painted");
    assert!(right[32][0][0] > 0, "right edge should be painted");
}

#[test]
fn eraser_reduces_alpha() {
    let mut s = MemSurface::new();
    s.draw_dab(&red_dab(32.0, 32.0, 5.0), level());
    let before = s.tile(0, 0).unwrap()[32][32][3];
    assert!(before > 0);

    let mut eraser = red_dab(32.0, 32.0, 5.0);
    eraser.alpha_eraser = Single { bits: 0 };
    s.draw_dab(&eraser, level());
    let after = s.tile(0, 0).unwrap()[32][32][3];
    assert!(after < before, "alpha should decrease: {before} -> {after}");
}

#[test]
fn lock_alpha_paints_only_inside_existing_alpha() {
    let mut s = MemSurface::new();
    s.draw_dab(&red_dab(32.0, 32.0, 6.0), level());
    let mut blue = red_dab(32.0, 32.0, 6.0);
    blue.color = rgba(0.0, 0.0, 1.0, 1.0);
    blue.lock_alpha = Single { bits: (1.0f32).to_bits() };
    let before_alpha = s.tile(0, 0).unwrap()[32][32][3];
    s.draw_dab(&blue, level());
    let after = s.tile(0, 0).unwrap()[32][32];
    assert!(after[2] > 0, "blue painted");
    assert_eq!(after[3], before_alpha, "alpha must be locked");

    let untouched = s.tile(0, 0).unwrap()[5][5];
    assert_eq!(untouched, [0, 0, 0, 0]);
}

#[test]
fn anti_aliasing_softens_hard_edge() {
    let mut without_aa = MemSurface::new();
    let mut with_aa = MemSurface::new();

    let mut dab = red_dab(32.0, 32.0, 5.0);
    dab.hardness = s(1.0);
    without_aa.draw_dab(&dab, level());

    dab.anti_aliasing = s(1.0);
    with_aa.draw_dab(&dab, level());

    let outside_off = without_aa.tile(0, 0).map(|t| t[32][37][3]).unwrap_or(0);
    let outside_on = with_aa.tile(0, 0).map(|t| t[32][37][3]).unwrap_or(0);
    assert_eq!(outside_off, 0, "no AA: outside is fully transparent");
    assert!(
        outside_on > 0,
        "AA: outside pixel should have some coverage, got {outside_on}"
    );
}

#[test]
fn get_color_reads_painted_region() {
    let mut surf = MemSurface::new();
    surf.draw_dab(&red_dab(32.0, 32.0, 6.0), level());

    let c = surf.get_color(s(32.0), s(32.0), s(4.0));
    let (r, g, b, a) = (
        f32::from_bits(c.r.bits),
        f32::from_bits(c.g.bits),
        f32::from_bits(c.b.bits),
        f32::from_bits(c.a.bits),
    );
    assert!(r > 0.9, "expected red, got r={}", r);
    assert!(g < 0.05);
    assert!(b < 0.05);
    assert!(a > 0.5);
}
