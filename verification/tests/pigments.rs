use hokusai::blend::{normal_and_eraser_paint_pixel, normal_and_eraser_pixel, Source};
use hokusai::single::Single;
use hokusai::spectral::{
    mix_colors, mix_spectra, rgb_to_spectral, spectral_blend_factor, spectral_to_rgb,
};

fn s(v: f32) -> Single {
    Single { bits: v.to_bits() }
}

fn f(v: Single) -> f32 {
    f32::from_bits(v.bits)
}

#[test]
fn primaries_round_trip_approximately() {
    for &(r, g, b) in &[(1.0_f32, 0.0, 0.0), (0.0, 1.0, 0.0), (0.0, 0.0, 1.0)] {
        let bands = rgb_to_spectral(s(r), s(g), s(b));
        let (r2, g2, b2) = spectral_to_rgb(&bands);
        assert!((f(r2) - r).abs() < 0.05, "r: {r} → {}", f(r2));
        assert!((f(g2) - g).abs() < 0.05, "g: {g} → {}", f(g2));
        assert!((f(b2) - b).abs() < 0.05, "b: {b} → {}", f(b2));
    }
}

#[test]
fn blue_plus_yellow_is_greenish() {
    let blue = rgb_to_spectral(s(0.0), s(0.0), s(1.0));
    let yellow = rgb_to_spectral(s(1.0), s(1.0), s(0.0));
    let mut mix = [s(0.0); 10];
    for i in 0..10 {
        mix[i] = s(f(blue[i]).powf(0.5) * f(yellow[i]).powf(0.5));
    }
    let (r, g, b) = spectral_to_rgb(&mix);
    let (r, g, b) = (f(r), f(g), f(b));
    assert!(g > r, "green {g} should beat red {r}");
    assert!(g > b, "green {g} should beat blue {b}");
}

#[test]
fn mixing_without_paint_is_linear() {
    let black = [s(0.0), s(0.0), s(0.0), s(1.0)];
    let white = [s(1.0), s(1.0), s(1.0), s(1.0)];
    let half = mix_colors(black, white, s(0.5), s(0.0));
    assert_eq!(f(half[0]), 0.5);
    assert_eq!(f(half[3]), 1.0);
}

#[test]
fn a_clear_canvas_blends_additively() {
    assert_eq!(spectral_blend_factor(s(0.0)).bits, 0);
    assert_eq!(f(spectral_blend_factor(s(1.0))), 1.0);
    let source = Source { r: 32768, g: 16384, b: 100 };
    let bands = rgb_to_spectral(s(1.0), s(0.5), s(100.0 / 32768.0));
    for color_a in [0, 1, 9000, 32768] {
        for (mask, opacity) in [(32768, 32768), (20000, 30000), (1, 32768), (500, 0)] {
            for p in [[0, 0, 0, 0], [7, 8, 9, 0]] {
                let q = normal_and_eraser_paint_pixel(p, mask, source, &bands, color_a, opacity);
                let plain = normal_and_eraser_pixel(p, mask, source, color_a, opacity);
                assert_eq!(q, plain);
            }
            for p in [[100, 200, 300, 400], [32768, 0, 5000, 32768]] {
                let q = normal_and_eraser_paint_pixel(p, mask, source, &bands, color_a, opacity);
                let plain = normal_and_eraser_pixel(p, mask, source, color_a, opacity);
                assert_eq!(q[3], plain[3]);
            }
        }
    }
}

#[test]
fn mixing_over_and_over_stays_within_the_bound() {
    // The share of the new pigment shrinks, so that the approximate powers of
    // the old one drift.
    for level in [1.0_f32, 65535.0] {
        let new = rgb_to_spectral(s(level), s(level), s(level));
        let mut bands = rgb_to_spectral(s(0.0), s(0.0), s(0.0));
        for n in 1..5000 {
            let share = s(1.0 / n as f32);
            bands = mix_spectra(&new, &bands, share, s(1.0 - f(share)));
        }
        for band in bands {
            assert!(band.bits <= 0x7b90_0000, "{}", f(band));
        }
        let (r, g, b) = spectral_to_rgb(&bands);
        for c in [f(r), f(g), f(b)] {
            assert!((0.0..=1.0).contains(&c), "{c}");
        }
    }
}
