use hokusai::brush::Brush;
use hokusai::dab::build_dab;
use hokusai::double::Double;
use hokusai::elementary::{Elementary, Narrow, Wide};
use hokusai::evaluator::SettingValues;
use hokusai::mapping::SettingValue;
use hokusai::setting::BrushSetting;
use hokusai::single::Single;
use hokusai::spectral::{fastpow, mix_colors, spectral_blend_factor};
use hokusai::state::BrushState;
use hokusai::surface::Dab;

fn s(v: f32) -> Single {
    Single { bits: v.to_bits() }
}

fn f(v: Single) -> f32 {
    f32::from_bits(v.bits)
}

fn math() -> Elementary<impl Fn(Narrow) -> Single, impl Fn(Wide) -> Double> {
    Elementary {
        narrow: |c: Narrow| match c {
            Narrow::Pow(x, p) => s(f(x).powf(f(p))),
            _ => unreachable!("a dab only needs powers"),
        },
        wide: |_c: Wide| unreachable!("a dab only needs powers"),
    }
}

fn made(
    bases: &[(BrushSetting, f32)],
    values: &[(BrushSetting, f32)],
    state: &mut BrushState,
    smudge: f32,
) -> Dab {
    let mut brush = Brush::new();
    for &(setting, v) in bases {
        brush.set(setting, SettingValue::constant(s(v)));
    }
    let mut sv = SettingValues::new();
    for &(setting, v) in values {
        sv.values[setting.index()] = s(v);
    }
    build_dab(&brush, &sv, state, s(10.3), s(20.8), s(4.2), s(smudge), s(1.0), &math())
}

#[test]
fn shares_are_held_to_the_unit_interval() {
    let values = [
        (BrushSetting::Opaque, 7.0),
        (BrushSetting::Hardness, 0.5),
        (BrushSetting::LockAlpha, -3.0),
        (BrushSetting::Colorize, 2.0),
        (BrushSetting::Posterize, 1.5),
        (BrushSetting::PosterizeNum, 0.02),
        (BrushSetting::Paint, 9.0),
        (BrushSetting::Eraser, 0.25),
        (BrushSetting::EllipticalDabRatio, 0.5),
        (BrushSetting::EllipticalDabAngle, 45.0),
    ];
    let d = made(&[], &values, &mut BrushState::default(), 0.0);
    assert_eq!(f(d.opaque), 1.0);
    assert_eq!(f(d.lock_alpha), 0.0);
    assert_eq!(f(d.colorize), 1.0);
    assert_eq!(f(d.posterize), 1.0);
    assert_eq!(f(d.posterize_num), 2.0);
    assert_eq!(f(d.paint), 1.0);
    assert_eq!(f(d.alpha_eraser), 0.75);
    assert_eq!(f(d.aspect_ratio), 1.0);
    assert_eq!(f(d.angle), 45.0);
    assert_eq!((f(d.x), f(d.y), f(d.radius)), (10.3, 20.8, 4.2));
}

#[test]
fn opacity_is_multiplied_and_spread_over_dabs() {
    let mut state = BrushState::default();
    let opaque = [(BrushSetting::Opaque, 0.6), (BrushSetting::OpaqueMultiply, 0.5)];
    // A multiplier that the brush leaves alone counts as one.
    let d = made(&[], &opaque, &mut state, 0.0);
    assert_eq!(f(d.opaque), 0.6);
    let d = made(&[(BrushSetting::OpaqueMultiply, 1.0)], &opaque, &mut state, 0.0);
    assert_eq!(f(d.opaque), 0.6 * 0.5);
    // Four dabs on each pixel, fully spread.
    state.dabs_per_actual_radius = s(2.0);
    let d = made(&[(BrushSetting::OpaqueLinearize, 1.0)], &opaque, &mut state, 0.0);
    assert_eq!(f(d.opaque), 1.0 - (1.0_f32 - 0.6).powf(1.0 / 4.0));
}

#[test]
fn sharp_edges_are_softened() {
    let values = [(BrushSetting::Hardness, 1.0), (BrushSetting::AntiAliasing, 1.0)];
    let d = made(&[], &values, &mut BrushState::default(), 0.0);
    let hard = (4.2_f32 - 0.5) / (4.2 + 0.5);
    assert_eq!(f(d.hardness), hard);
    assert_eq!(f(d.radius), 1.0 / (1.0 - hard));
    assert_eq!(f(d.anti_aliasing), 0.0);
    let values = [(BrushSetting::Hardness, 0.5), (BrushSetting::AntiAliasing, 1.0)];
    let d = made(&[], &values, &mut BrushState::default(), 0.0);
    assert_eq!((f(d.hardness), f(d.radius)), (0.5, 4.2));
}

#[test]
fn dabs_snap_to_pixels() {
    let values = [(BrushSetting::SnapToPixel, 1.0)];
    let d = made(&[], &values, &mut BrushState::default(), 0.0);
    assert_eq!((f(d.x), f(d.y)), (10.5, 20.5));
    assert!((f(d.radius) - 3.9999).abs() < 1e-6, "{}", f(d.radius));
    let values = [(BrushSetting::SnapToPixel, 0.5)];
    let d = made(&[], &values, &mut BrushState::default(), 0.0);
    assert_eq!(f(d.x), 10.3 + (10.5 - 10.3_f32) * 0.5);
}

#[test]
fn colours_are_smudged_and_moved() {
    let red = [(BrushSetting::ColorS, 1.0), (BrushSetting::ColorV, 1.0)];
    let mut state = BrushState::default();
    let d = made(&red, &[], &mut state, 0.0);
    assert_eq!((f(d.color.r), f(d.color.g), f(d.color.b)), (1.0, 0.0, 0.0));
    assert_eq!((f(state.actual_h), f(state.actual_s), f(state.actual_v)), (0.0, 1.0, 1.0));
    // Half of the bucket, which is an opaque green.
    state.smudge_ga = s(1.0);
    state.smudge_a = s(1.0);
    let d = made(&red, &[], &mut state, 0.5);
    assert_eq!((f(d.color.r), f(d.color.g), f(d.color.b)), (0.5, 0.5, 0.0));
    // A transparent bucket carries its transparency along.
    state.smudge_ga = s(0.0);
    state.smudge_a = s(0.0);
    let d = made(&red, &[], &mut state, 0.25);
    assert_eq!(f(d.alpha_eraser), 0.75);
    assert_eq!((f(d.color.r), f(d.color.g), f(d.color.b)), (1.0, 0.0, 0.0));
    // Half way around, and half as bright.
    let moves = [(BrushSetting::ChangeColorH, 0.5), (BrushSetting::ChangeColorV, -0.5)];
    let d = made(&red, &moves, &mut state, 0.0);
    assert_eq!((f(d.color.r), f(d.color.g), f(d.color.b)), (0.0, 0.5, 0.5));
    let lighter = [(BrushSetting::ChangeColorL, 0.25)];
    let d = made(&red, &lighter, &mut state, 0.0);
    assert_eq!((f(d.color.r), f(d.color.g), f(d.color.b)), (1.0, 0.5, 0.5));
}

/// The power that pigments are mixed with, in plain floating point.
fn plain_fastpow(x: f32, p: f32) -> f32 {
    let bits = x.to_bits();
    let m = f32::from_bits((bits & 0x007f_ffff) | 0x3f00_0000);
    let log = bits as f32 * 1.192_092_9e-7 - 124.225_52 - 1.498_030_3 * m
        - 1.725_88 / (0.352_088_7 + m);
    let e = p * log;
    let e = if e < -126.0 { -126.0 } else { e };
    let z = e - (e as i32) as f32 + if p * log < 0.0 { 1.0 } else { 0.0 };
    let code = 8388608.0_f32 * (e + 121.274_055 + 27.728_022 / (4.842_525_7 - z) - 1.490_129_1 * z);
    f32::from_bits(code as u32)
}

#[test]
fn pigment_powers_match_plain_floating_point() {
    for i in 1..200 {
        for j in 0..20 {
            let x = i as f32 * 0.0051;
            let p = j as f32 * 0.053;
            assert_eq!(fastpow(s(x), s(p)).bits, plain_fastpow(x, p).to_bits(), "{x} ^ {p}");
        }
    }
}

#[test]
fn mixing_pigments_keeps_the_ends() {
    let blue = [s(0.1), s(0.2), s(0.9), s(1.0)];
    let white = [s(1.0), s(1.0), s(1.0), s(0.5)];
    let all = mix_colors(blue, white, s(1.0), s(0.0));
    assert_eq!([f(all[0]), f(all[1]), f(all[2]), f(all[3])], [0.1, 0.2, 0.9, 1.0]);
    let none = mix_colors(blue, white, s(0.0), s(0.0));
    assert_eq!([f(none[0]), f(none[3])], [1.0, 0.5]);
    let low = f(spectral_blend_factor(s(0.0)));
    let high = f(spectral_blend_factor(s(1.0)));
    assert!(low < high, "{low} {high}");
}
