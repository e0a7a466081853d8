use hokusai::brush::Brush;
use hokusai::evaluator::{evaluate, InputValues};
use hokusai::input::BrushInput;
use hokusai::mapping::{InputMapping, SettingValue};
use hokusai::setting::BrushSetting;
use hokusai::single::Single;

fn s(v: f32) -> Single {
    Single { bits: v.to_bits() }
}

fn f(v: Single) -> f32 {
    f32::from_bits(v.bits)
}

fn mapping(input: BrushInput, points: &[(f32, f32)]) -> InputMapping {
    InputMapping { input, points: points.iter().map(|&(x, y)| (s(x), s(y))).collect() }
}

#[test]
fn linear_in_range() {
    let m = mapping(BrushInput::Pressure, &[(0.0, 0.0), (1.0, 1.0)]);
    assert!((f(m.eval(s(0.5))) - 0.5).abs() < 1e-6);
}

#[test]
fn extrapolates_with_segment_slope() {
    let m = mapping(BrushInput::Pressure, &[(0.0, 0.0), (1.0, 2.0)]);
    assert!((f(m.eval(s(2.0))) - 4.0).abs() < 1e-6);
    assert!((f(m.eval(s(-1.0))) - (-2.0)).abs() < 1e-6);
}

#[test]
fn duplicate_x_returns_first_y() {
    let m = mapping(BrushInput::Pressure, &[(0.0, 0.0), (0.0, 1.0), (1.0, 1.0)]);
    assert_eq!(f(m.eval(s(0.0))), 0.0);
    assert_eq!(f(m.eval(s(0.5))), 1.0);
    assert_eq!(f(m.eval(s(1.0))), 1.0);
    // Below the first knot still uses the first segment.
    assert_eq!(f(m.eval(s(-0.5))), 0.0);
}

#[test]
fn staircase_curve_steps_correctly() {
    let m = mapping(
        BrushInput::Random,
        &[(0.0, -10.0), (0.1, -10.0), (0.1, -8.0), (0.2, -8.0), (0.2, -6.0), (0.3, -6.0)],
    );
    assert_eq!(f(m.eval(s(0.05))), -10.0);
    assert_eq!(f(m.eval(s(0.15))), -8.0);
    assert_eq!(f(m.eval(s(0.25))), -6.0);
}

#[test]
fn empty_and_single_knot_curves() {
    assert_eq!(f(InputMapping::new(BrushInput::Tilt).eval(s(3.0))), 0.0);
    assert_eq!(f(mapping(BrushInput::Tilt, &[(5.0, 0.25)]).eval(s(-3.0))), 0.25);
}

#[test]
fn base_value_only() {
    let mut brush = Brush::new();
    brush.set(BrushSetting::Radius, SettingValue::constant(s(2.0)));
    let out = evaluate(&brush, &InputValues::new());
    assert_eq!(f(out.get(BrushSetting::Radius)), 2.0);
}

#[test]
fn sums_base_and_mapped_inputs() {
    let mut brush = Brush::new();
    let mut v = SettingValue::constant(s(0.2));
    v.inputs.push(mapping(BrushInput::Pressure, &[(0.0, 0.0), (1.0, 0.5)]));
    brush.set(BrushSetting::Opaque, v);
    let mut inputs = InputValues::new();
    inputs.set(BrushInput::Pressure, s(1.0));
    let out = evaluate(&brush, &inputs);
    assert!((f(out.get(BrushSetting::Opaque)) - 0.7).abs() < 1e-6);
}

#[test]
fn multiple_input_mappings_sum() {
    let mut brush = Brush::new();
    let mut v = SettingValue::constant(s(1.0));
    v.inputs.push(mapping(BrushInput::Pressure, &[(0.0, 0.0), (1.0, 1.0)]));
    v.inputs.push(mapping(BrushInput::Speed1, &[(0.0, 0.0), (4.0, -0.5)]));
    brush.set(BrushSetting::Radius, v);
    let mut inputs = InputValues::new();
    inputs.set(BrushInput::Pressure, s(0.5));
    inputs.set(BrushInput::Speed1, s(2.0));
    let out = evaluate(&brush, &inputs);
    // 1.0 + 0.5 + (-0.25) = 1.25
    assert!((f(out.get(BrushSetting::Radius)) - 1.25).abs() < 1e-6);
}

#[test]
fn an_input_that_is_not_mapped_changes_nothing() {
    let mut brush = Brush::new();
    let mut v = SettingValue::constant(s(1.0));
    v.inputs.push(mapping(BrushInput::Pressure, &[(0.0, 0.0), (1.0, 1.0)]));
    brush.set(BrushSetting::Radius, v);
    let mut inputs = InputValues::new();
    inputs.set(BrushInput::Pressure, s(0.5));
    let before = evaluate(&brush, &inputs).get(BrushSetting::Radius);
    inputs.set(BrushInput::Custom, s(7.0));
    assert_eq!(evaluate(&brush, &inputs).get(BrushSetting::Radius), before);
}
