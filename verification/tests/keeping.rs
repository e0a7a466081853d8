use hokusai::color::RgbaF32;
use hokusai::rand::SampleRng;
use hokusai::single::Single;
use hokusai::surface::{Dab, TiledSurface, Turn};
use hokusai::tile_mem::MemSurface;
use hokusai::DabSurface;

fn s(v: f32) -> Single {
    Single { bits: v.to_bits() }
}

fn f(v: Single) -> f32 {
    f32::from_bits(v.bits)
}

fn level() -> Turn {
    Turn { cs: s(1.0), sn: s(0.0) }
}

fn dab(x: f32, y: f32, radius: f32) -> Dab {
    Dab {
        x: s(x),
        y: s(y),
        radius: s(radius),
        color: RgbaF32::new(s(0.9), s(0.4), s(0.1), s(1.0)),
        opaque: s(0.7),
        hardness: s(0.4),
        alpha_eraser: s(1.0),
        aspect_ratio: s(1.0),
        angle: s(0.0),
        lock_alpha: s(0.0),
        colorize: s(0.0),
        posterize: s(0.0),
        posterize_num: s(1.0),
        paint: s(0.0),
        anti_aliasing: s(0.0),
    }
}

fn pixels(surface: &MemSurface) -> Vec<[u16; 4]> {
    let mut out = Vec::new();
    for ty in -1..3 {
        for tx in -1..3 {
            for y in 0..64 {
                for x in 0..64 {
                    out.push(match surface.tile(tx, ty) {
                        Some(t) => t[y][x],
                        None => [0; 4],
                    });
                }
            }
        }
    }
    out
}

fn some_dabs(surface: &mut MemSurface) {
    for i in 0..12 {
        let t = i as f32;
        let mut d = dab(8.0 + 9.3 * t, 30.0 + 7.1 * t, 1.0 + 1.7 * t);
        d.color = RgbaF32::new(s(t / 12.0), s(1.0 - t / 12.0), s(0.3), s(1.0));
        d.alpha_eraser = s(1.0 - t / 30.0);
        d.aspect_ratio = s(1.0 + t / 6.0);
        surface.draw_dab(&d, Turn { cs: s(0.8), sn: s(0.6) });
    }
}

#[test]
fn plain_dabs_keep_pixels_premultiplied() {
    let mut surface = MemSurface::new();
    some_dabs(&mut surface);
    let mut locked = dab(60.0, 60.0, 40.0);
    locked.lock_alpha = s(0.5);
    surface.draw_dab(&locked, level());
    assert!(pixels(&surface).iter().any(|p| p[3] > 0));
    for p in pixels(&surface) {
        assert!(p[0] <= p[3] && p[1] <= p[3] && p[2] <= p[3] && p[3] <= 32768, "{p:?}");
    }
}

#[test]
fn locked_dabs_keep_alpha() {
    let mut surface = MemSurface::new();
    some_dabs(&mut surface);
    let before = pixels(&surface);
    let mut locked = dab(60.0, 60.0, 40.0);
    locked.lock_alpha = s(1.0);
    assert!(surface.draw_dab(&locked, level()));
    let after = pixels(&surface);
    assert_ne!(before, after);
    for (p, q) in before.iter().zip(&after) {
        assert_eq!(p[3], q[3]);
    }
}

#[test]
fn erasing_dabs_only_take_away() {
    let mut surface = MemSurface::new();
    some_dabs(&mut surface);
    let before = pixels(&surface);
    let mut eraser = dab(50.0, 60.0, 30.0);
    eraser.alpha_eraser = s(0.0);
    assert!(surface.draw_dab(&eraser, level()));
    let after = pixels(&surface);
    assert_ne!(before, after);
    for (p, q) in before.iter().zip(&after) {
        for c in 0..4 {
            assert!(q[c] <= p[c]);
        }
    }
}

#[test]
fn dabs_stay_within_a_pixel_of_their_radius() {
    let mut surface = MemSurface::new();
    let mut d = dab(40.5, 33.25, 6.0);
    d.aspect_ratio = s(3.0);
    assert!(surface.draw_dab(&d, Turn { cs: s(0.6), sn: s(0.8) }));
    let tile = surface.tile(0, 0).unwrap();
    for y in 0..64 {
        for x in 0..64 {
            if !(33..=47).contains(&x) || !(26..=40).contains(&y) {
                assert_eq!(tile[y][x], [0; 4], "({x}, {y})");
            }
        }
    }
    assert_eq!(surface.tile_count(), 1);
}

#[test]
fn dabs_with_nothing_to_draw_draw_nothing() {
    let mut surface = MemSurface::new();
    let mut thin = dab(10.0, 10.0, 0.05);
    assert!(!surface.draw_dab(&thin, level()));
    thin.radius = s(4.0);
    thin.hardness = s(-0.1);
    assert!(!surface.draw_dab(&thin, level()));
    thin.hardness = s(0.5);
    thin.opaque = s(0.0);
    assert!(!surface.draw_dab(&thin, level()));
    assert_eq!(surface.tile_count(), 0);
}

#[test]
fn every_mode_changes_what_is_there() {
    for mode in 0..4 {
        let mut surface = MemSurface::new();
        some_dabs(&mut surface);
        let before = pixels(&surface);
        let mut d = dab(50.0, 60.0, 25.0);
        match mode {
            0 => d.colorize = s(1.0),
            1 => {
                d.posterize = s(1.0);
                d.posterize_num = s(3.0);
            }
            2 => d.paint = s(1.0),
            _ => {
                d.paint = s(0.5);
                d.alpha_eraser = s(0.5);
                d.lock_alpha = s(0.5);
            }
        }
        assert!(surface.draw_dab(&d, level()));
        assert_ne!(before, pixels(&surface), "mode {mode}");
        if mode < 2 {
            for (p, q) in before.iter().zip(&pixels(&surface)) {
                assert_eq!(p[3], q[3]);
            }
        }
    }
}

#[test]
fn posterizing_leaves_levels() {
    let mut surface = MemSurface::new();
    surface.tile_request_start(0, 0)[10][10] = [12000, 20000, 300, 32768];
    let mut d = dab(10.5, 10.5, 4.0);
    d.opaque = s(1.0);
    d.hardness = s(1.0);
    d.posterize = s(1.0);
    d.posterize_num = s(4.0);
    surface.draw_dab(&d, level());
    assert_eq!(surface.tile(0, 0).unwrap()[10][10], [8192, 16384, 0, 32768]);
}

#[test]
fn nothing_to_look_at_has_no_alpha() {
    let surface = MemSurface::new();
    for radius in [0.0_f32, 1.0, 2.5, 40.0] {
        assert_eq!(f(surface.get_color(s(12.0), s(-7.0), s(radius)).a), 0.0);
        let mut rng = SampleRng::new();
        let c = surface.get_color_pigment(s(12.0), s(-7.0), s(radius), s(0.5), &mut rng);
        assert_eq!(f(c.a), 0.0);
    }
}

#[test]
fn only_large_spots_are_left_to_chance() {
    let mut surface = MemSurface::new();
    some_dabs(&mut surface);
    let look = |radius: f32, seed: u64| {
        let mut rng = SampleRng { state: seed };
        let c = surface.get_color_pigment(s(40.0), s(55.0), s(radius), s(1.0), &mut rng);
        (c, rng.state)
    };
    let (c, left) = look(2.0, 1);
    assert_eq!(left, 1);
    assert_eq!(look(2.0, 77).0, c);
    assert!(f(c.a) > 0.0);
    let (_, left) = look(9.0, 1);
    assert_ne!(left, 1);
}

#[test]
fn an_even_canvas_has_its_own_colour() {
    let mut surface = MemSurface::new();
    for row in surface.tile_request_start(0, 0).iter_mut() {
        for p in row.iter_mut() {
            *p = [8192, 16384, 4096, 32768];
        }
    }
    let c = surface.get_color(s(32.0), s(32.0), s(8.0));
    assert!((f(c.r) - 0.25).abs() < 1e-3 && (f(c.g) - 0.5).abs() < 1e-3);
    assert!((f(c.b) - 0.125).abs() < 1e-3 && (f(c.a) - 1.0).abs() < 1e-3);
    let mut rng = SampleRng::new();
    let c = surface.get_color_pigment(s(32.0), s(32.0), s(2.0), s(0.0), &mut rng);
    assert!((f(c.r) - 0.25).abs() < 1e-3 && (f(c.g) - 0.5).abs() < 1e-3);
    assert!((f(c.b) - 0.125).abs() < 1e-3 && (f(c.a) - 1.0).abs() < 1e-3);
}

fn solid(x: f32, y: f32, radius: f32, color: (f32, f32, f32)) -> Dab {
    let mut d = dab(x, y, radius);
    d.color = RgbaF32::new(s(color.0), s(color.1), s(color.2), s(1.0));
    d.opaque = s(1.0);
    d.hardness = s(1.0);
    d
}

#[test]
fn pigment_dabs_still_posterize() {
    let mut surface = MemSurface::new();
    surface.draw_dab(&solid(32.0, 32.0, 20.0, (0.9, 0.4, 0.1)), level());
    let mut d = solid(32.0, 32.0, 10.0, (0.2, 0.6, 0.7));
    d.paint = s(1.0);
    d.posterize = s(1.0);
    d.posterize_num = s(2.0);
    surface.draw_dab(&d, level());
    let p = surface.tile(0, 0).unwrap()[32][32];
    for c in 0..3 {
        assert!([0, 16384, 32768].contains(&p[c]), "{p:?}");
    }
}

#[test]
fn colouring_keeps_alpha_and_chroma() {
    let mut surface = MemSurface::new();
    surface.draw_dab(&solid(32.0, 32.0, 20.0, (0.5, 0.5, 0.5)), level());
    let before = surface.tile(0, 0).unwrap()[32][32];
    let mut d = solid(32.0, 32.0, 10.0, (0.5, 0.375, 0.25));
    d.colorize = s(1.0);
    surface.draw_dab(&d, level());
    let after = surface.tile(0, 0).unwrap()[32][32];
    assert_eq!(before[3], after[3]);
    assert_eq!(after[0] as i32 - after[1] as i32, 4096);
    assert_eq!(after[1] as i32 - after[2] as i32, 4096);
    let luma = |p: [u16; 4]| {
        0.2126 * p[0] as f64 + 0.7152 * p[1] as f64 + 0.0722 * p[2] as f64
    };
    assert!((luma(before) - luma(after)).abs() < 4.0, "{before:?} {after:?}");
}

#[test]
fn locked_alpha_changes_nothing_on_an_empty_canvas() {
    let mut surface = MemSurface::new();
    let mut d = solid(32.0, 32.0, 10.0, (1.0, 0.0, 0.0));
    d.lock_alpha = s(1.0);
    assert!(!surface.draw_dab(&d, level()));
    assert!(pixels(&surface).iter().all(|p| *p == [0; 4]));
    // The same dab with alpha paints, and painting it again changes nothing.
    d.lock_alpha = s(0.0);
    assert!(surface.draw_dab(&d, level()));
    let before = pixels(&surface);
    for _ in 0..40 {
        surface.draw_dab(&d, level());
    }
    let settled = pixels(&surface);
    assert!(!surface.draw_dab(&d, level()));
    assert_eq!(settled, pixels(&surface));
    assert_eq!(before[0], settled[0]);
}

#[test]
fn levels_that_are_no_number_are_one() {
    let draw = |num: f32| {
        let mut surface = MemSurface::new();
        some_dabs(&mut surface);
        let mut d = solid(50.0, 60.0, 25.0, (0.3, 0.6, 0.9));
        d.posterize = s(1.0);
        d.posterize_num = s(num);
        assert!(surface.draw_dab(&d, level()));
        pixels(&surface)
    };
    assert_eq!(draw(f32::NAN), draw(1.0));
    assert_ne!(draw(f32::NAN), draw(3.0));
}

#[test]
fn every_mode_keeps_channels_in_range() {
    let mut surface = MemSurface::new();
    for i in 0..40 {
        let t = i as f32 / 39.0;
        let mut d = solid(20.0 + 60.0 * t, 40.0 + 30.0 * t, 18.0, (1.0, 1.0 - t * t, t));
        d.opaque = s(0.3 + 0.7 * t);
        match i % 5 {
            0 => {}
            1 => d.paint = s(1.0),
            2 => d.colorize = s(1.0),
            3 => {
                d.paint = s(0.6);
                d.alpha_eraser = s(0.5);
            }
            _ => d.lock_alpha = s(0.7),
        }
        surface.draw_dab(&d, level());
        for p in pixels(&surface) {
            assert!(p[0] <= p[3] && p[1] <= p[3] && p[2] <= p[3] && p[3] <= 32768, "{i}: {p:?}");
        }
        d.posterize = s(0.5);
        d.posterize_num = s(4.0);
        let mut other = MemSurface::new();
        some_dabs(&mut other);
        other.draw_dab(&d, level());
        for p in pixels(&other) {
            assert!(p.iter().all(|c| *c <= 32768), "{i}: {p:?}");
        }
    }
}

#[test]
fn picked_up_pigment_is_in_range() {
    let mut surface = MemSurface::new();
    let mut rng = SampleRng::new();
    let clear = surface.get_color_pigment(s(20.0), s(30.0), s(2.0), s(0.5), &mut rng);
    assert_eq!((f(clear.r), f(clear.g), f(clear.b), f(clear.a)), (0.0, 1.0, 0.0, 0.0));
    assert_eq!(rng, SampleRng::new());
    some_dabs(&mut surface);
    for radius in [0.5, 2.0, 9.0, 40.0] {
        for paint in [0.0, 0.3, 1.0] {
            let c = surface.get_color_pigment(s(50.0), s(60.0), s(radius), s(paint), &mut rng);
            for v in [c.r, c.g, c.b, c.a] {
                assert!((0.0..=1.0).contains(&f(v)), "{}", f(v));
            }
            assert!(f(c.a) > 0.0);
        }
    }
    assert_ne!(rng, SampleRng::new());
}
