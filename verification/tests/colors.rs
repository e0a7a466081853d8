use hokusai::color::{
    hsl_to_rgb, hsv_to_rgb, linear_to_srgb, rgb_to_hsl, rgb_to_hsv, srgb_to_linear, Hsl, Hsv,
    RgbaF32,
};
use hokusai::double::Double;
use hokusai::elementary::{Elementary, Narrow, Wide};
use hokusai::single::Single;

fn s(v: f32) -> Single {
    Single { bits: v.to_bits() }
}

fn f(v: Single) -> f32 {
    f32::from_bits(v.bits)
}

fn math() -> Elementary<impl Fn(Narrow) -> Single, impl Fn(Wide) -> Double> {
    Elementary {
        narrow: |c: Narrow| match c {
            Narrow::Pow(x, p) => s(f(x).powf(f(p))),
            _ => unreachable!("colours only need powers"),
        },
        wide: |_c: Wide| unreachable!("colours only need powers"),
    }
}

fn rgb(c: RgbaF32) -> (f32, f32, f32) {
    (f(c.r), f(c.g), f(c.b))
}

fn from_hsv(h: f32, sat: f32, v: f32) -> (f32, f32, f32) {
    rgb(hsv_to_rgb(Hsv { h: s(h), s: s(sat), v: s(v) }))
}

#[test]
fn hues_of_the_sextants() {
    assert_eq!(from_hsv(0.0, 1.0, 1.0), (1.0, 0.0, 0.0));
    assert_eq!(from_hsv(0.25, 1.0, 1.0), (0.5, 1.0, 0.0));
    assert_eq!(from_hsv(0.5, 1.0, 1.0), (0.0, 1.0, 1.0));
    assert_eq!(from_hsv(0.75, 1.0, 1.0), (0.5, 0.0, 1.0));
    assert_eq!(from_hsv(1.0, 1.0, 1.0), (1.0, 0.0, 0.0));
    assert_eq!(from_hsv(-0.25, 1.0, 1.0), from_hsv(0.75, 1.0, 1.0));
    assert_eq!(from_hsv(0.0, 0.5, 0.5), (0.5, 0.25, 0.25));
    assert_eq!(f(hsv_to_rgb(Hsv { h: s(0.3), s: s(0.3), v: s(0.3) }).a), 1.0);
}

#[test]
fn colours_without_saturation_are_grey() {
    for h in [-3.7_f32, 0.0, 0.1, 0.49, 0.99, 12.3] {
        assert_eq!(from_hsv(h, 0.0, 0.625), (0.625, 0.625, 0.625));
    }
}

#[test]
fn channels_stay_in_the_unit_interval() {
    for i in -40..40 {
        for j in 0..=10 {
            let (r, g, b) = from_hsv(i as f32 * 0.0713, j as f32 / 10.0, 1.0);
            for c in [r, g, b] {
                assert!((0.0..=1.0).contains(&c), "{c}");
            }
        }
    }
}

#[test]
fn hue_saturation_and_value_of_colours() {
    let hsv = |r, g, b| {
        let c = rgb_to_hsv(s(r), s(g), s(b));
        (f(c.h), f(c.s), f(c.v))
    };
    assert_eq!(hsv(1.0, 0.0, 0.0), (0.0, 1.0, 1.0));
    assert_eq!(hsv(0.0, 1.0, 0.0), (2.0 / 6.0, 1.0, 1.0));
    assert_eq!(hsv(0.0, 0.0, 0.5), (4.0 / 6.0, 1.0, 0.5));
    assert_eq!(hsv(1.0, 0.0, 1.0), (5.0 / 6.0, 1.0, 1.0));
    assert_eq!(hsv(0.25, 0.25, 0.25), (0.0, 0.0, 0.25));
    // Channels outside the unit interval are held to it first.
    assert_eq!(hsv(2.0, -1.0, 0.0), (0.0, 1.0, 1.0));
}

#[test]
fn lightness_goes_there_and_back() {
    let c = rgb_to_hsl(s(1.0), s(0.0), s(0.0));
    assert_eq!((f(c.h), f(c.s), f(c.l)), (0.0, 1.0, 0.5));
    let c = rgb_to_hsl(s(0.5), s(0.5), s(0.5));
    assert_eq!((f(c.h), f(c.s), f(c.l)), (0.0, 0.0, 0.5));
    assert_eq!(rgb(hsl_to_rgb(Hsl { h: s(0.0), s: s(1.0), l: s(0.5) })), (1.0, 0.0, 0.0));
    assert_eq!(rgb(hsl_to_rgb(Hsl { h: s(0.0), s: s(0.0), l: s(0.375) })), (0.375, 0.375, 0.375));
    for &(r, g, b) in &[(0.2_f32, 0.4_f32, 0.9_f32), (0.9, 0.1, 0.3), (0.3, 0.8, 0.2)] {
        let (r2, g2, b2) = rgb(hsl_to_rgb(rgb_to_hsl(s(r), s(g), s(b))));
        assert!((r - r2).abs() + (g - g2).abs() + (b - b2).abs() < 1e-5);
        let (r2, g2, b2) = rgb(hsv_to_rgb(rgb_to_hsv(s(r), s(g), s(b))));
        assert!((r - r2).abs() + (g - g2).abs() + (b - b2).abs() < 1e-5);
    }
}

#[test]
fn srgb_transfer_functions() {
    let m = math();
    assert_eq!(f(linear_to_srgb(s(0.002), &m)), 0.002 * 12.92);
    assert_eq!(f(srgb_to_linear(s(0.03), &m)), 0.03 / 12.92);
    assert_eq!(f(linear_to_srgb(s(0.5), &m)), 1.055 * 0.5_f32.powf(1.0 / 2.4) - 0.055);
    assert_eq!(f(srgb_to_linear(s(0.5), &m)), ((0.5_f32 + 0.055) / 1.055).powf(2.4));
    assert_eq!(f(linear_to_srgb(s(-1.0), &m)), -12.92);
    for i in 0..=100 {
        let v = i as f32 / 100.0;
        let back = f(srgb_to_linear(linear_to_srgb(s(v), &m), &m));
        assert!((back - v).abs() < 1e-5, "{v} -> {back}");
    }
}
