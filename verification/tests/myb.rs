use hokusai::brush::Brush;
use hokusai::input::BrushInput;
use hokusai::mapping::SettingValue;
use hokusai::myb::{
    brush_from_raw, brush_to_raw, default_base, default_version, RawBrush, RawSetting,
};
use hokusai::setting::BrushSetting;
use hokusai::single::Single;
use hokusai::text::NameMap;
use serde_json::Value;

fn s(v: f32) -> Single {
    Single { bits: v.to_bits() }
}

fn f(v: Single) -> f32 {
    f32::from_bits(v.bits)
}

fn points(v: &Value) -> Vec<(Single, Single)> {
    v.as_array()
        .unwrap()
        .iter()
        .map(|p| (s(p[0].as_f64().unwrap() as f32), s(p[1].as_f64().unwrap() as f32)))
        .collect()
}

/// A brush file, by way of the JSON parser.
fn raw(json: &str) -> RawBrush {
    let v: Value = serde_json::from_str(json).unwrap();
    let text = |key: &str| v.get(key).and_then(|t| t.as_str()).map(|t| t.to_string());
    let mut settings = NameMap::new();
    if let Some(all) = v.get("settings").and_then(|m| m.as_object()) {
        for (name, setting) in all {
            let mut inputs = NameMap::new();
            if let Some(curves) = setting.get("inputs").and_then(|m| m.as_object()) {
                for (input, curve) in curves {
                    inputs.insert(input.clone(), points(curve));
                }
            }
            let base = setting.get("base_value").and_then(|b| b.as_f64()).unwrap_or(0.0);
            settings.insert(name.clone(), RawSetting { base_value: s(base as f32), inputs });
        }
    }
    RawBrush {
        version: v.get("version").and_then(|n| n.as_u64()).unwrap_or(default_version() as u64)
            as u32,
        group: text("group"),
        parent_brush_name: text("parent_brush_name"),
        comment: text("comment"),
        settings,
    }
}

const SAMPLE: &str = r#"{
    "version": 3,
    "comment": "test",
    "settings": {
        "opaque": { "base_value": 1.0, "inputs": { "pressure": [[0.0, 0.0], [1.0, 1.0]] } },
        "radius_logarithmic": { "base_value": 2.5 }
    }
}"#;

fn from_str(json: &str) -> Brush {
    brush_from_raw(&raw(json))
}

type Curve = Vec<(Single, Single)>;

/// Everything that a brush holds for a setting, for comparison.
fn contents(v: &SettingValue) -> (Single, Vec<(BrushInput, Curve)>, Vec<(String, Curve)>) {
    let mut unknown = v.unknown_inputs.entries.clone();
    unknown.sort_by(|a, b| a.0.cmp(&b.0));
    (v.base_value, v.inputs.iter().map(|m| (m.input, m.points.clone())).collect(), unknown)
}

#[test]
fn parses_basic() {
    let b = from_str(SAMPLE);
    assert_eq!(b.version, 3);
    assert_eq!(b.comment.as_deref(), Some("test"));
    assert_eq!(f(b.get(BrushSetting::Opaque).base_value), 1.0);
    assert_eq!(f(b.get(BrushSetting::Radius).base_value), 2.5);
    assert_eq!(b.get(BrushSetting::Opaque).inputs.len(), 1);
    assert_eq!(b.get(BrushSetting::Opaque).inputs[0].input, BrushInput::Pressure);
}

#[test]
fn unknown_settings_roundtrip_losslessly() {
    let json = r#"{
        "version": 3,
        "settings": {
            "opaque": { "base_value": 1.0 },
            "future_blink_blink": {
                "base_value": 0.42,
                "inputs": { "future_zoom": [[0.0, 0.0], [1.0, 1.0]] }
            }
        }
    }"#;
    let b = from_str(json);
    assert_eq!(b.unknown_settings.len(), 1);
    let u = b.unknown_settings.get("future_blink_blink").unwrap();
    assert_eq!(f(u.base_value), 0.42);
    assert_eq!(u.inputs.get("future_zoom").unwrap().len(), 2);

    let out = brush_to_raw(&b);
    let b2 = brush_from_raw(&out);
    assert_eq!(b2.unknown_settings.len(), 1);
    let u2 = b2.unknown_settings.get("future_blink_blink").unwrap();
    assert_eq!(u.base_value, u2.base_value);
    assert_eq!(u.inputs.entries, u2.inputs.entries);
}

#[test]
fn unknown_inputs_inside_known_settings_roundtrip() {
    let json = r#"{
        "version": 3,
        "settings": {
            "opaque": {
                "base_value": 0.5,
                "inputs": {
                    "pressure": [[0.0, 0.0], [1.0, 1.0]],
                    "future_input": [[0.0, 0.25], [1.0, -0.25]]
                }
            }
        }
    }"#;
    let b = from_str(json);
    let opa = b.get(BrushSetting::Opaque);
    assert_eq!(opa.inputs.len(), 1, "known input parsed");
    assert_eq!(opa.unknown_inputs.len(), 1, "unknown input stashed");
    let pts = opa.unknown_inputs.get("future_input").unwrap();
    assert_eq!(pts.len(), 2);
    assert!((f(pts[1].1) - (-0.25)).abs() < 1e-6);

    let b2 = brush_from_raw(&brush_to_raw(&b));
    assert_eq!(contents(b.get(BrushSetting::Opaque)), contents(b2.get(BrushSetting::Opaque)));
}

#[test]
fn roundtrip_preserves_known_settings() {
    let b = from_str(SAMPLE);
    let b2 = brush_from_raw(&brush_to_raw(&b));
    assert_eq!(contents(b.get(BrushSetting::Opaque)), contents(b2.get(BrushSetting::Opaque)));
    assert_eq!(contents(b.get(BrushSetting::Radius)), contents(b2.get(BrushSetting::Radius)));
    assert_eq!(b.comment, b2.comment);
}

#[test]
fn settings_that_are_left_out_have_defaults() {
    let b = from_str("{}");
    assert_eq!(b.version, 3);
    assert_eq!(f(b.get(BrushSetting::Hardness).base_value), 0.8);
    assert_eq!(f(b.get(BrushSetting::EllipticalDabAngle).base_value), 90.0);
    assert_eq!(f(b.get(BrushSetting::PosterizeNum).base_value), 0.05);
    assert_eq!(f(b.get(BrushSetting::Smudge).base_value), 0.0);
    assert_eq!(default_base(BrushSetting::Smudge), None);
    let multiply = b.get(BrushSetting::OpaqueMultiply);
    assert_eq!(f(multiply.base_value), 0.0);
    assert_eq!(multiply.inputs.len(), 1);
    assert_eq!(multiply.inputs[0].input, BrushInput::Pressure);
    assert_eq!(multiply.inputs[0].points, vec![(s(0.0), s(0.0)), (s(1.0), s(1.0))]);
    // Reading back what is written changes nothing.
    let again = brush_from_raw(&brush_to_raw(&b));
    for setting in BrushSetting::ALL {
        assert_eq!(contents(b.get(setting)), contents(again.get(setting)), "{}", setting.cname());
    }
}

#[test]
fn known_inputs_come_in_the_order_of_their_names() {
    let json = r#"{
        "settings": { "opaque": { "base_value": 0.5, "inputs": {
            "speed1": [[0.0, 0.0]], "tilt": [[0.0, 0.0]], "attack_angle": [[0.0, 0.0]],
            "pressure": [[0.0, 0.0]], "zzz": [[1.0, 2.0]]
        } } }
    }"#;
    let b = from_str(json);
    let order: Vec<BrushInput> =
        b.get(BrushSetting::Opaque).inputs.iter().map(|m| m.input).collect();
    assert_eq!(
        order,
        vec![BrushInput::AttackAngle, BrushInput::Pressure, BrushInput::Speed1, BrushInput::Tilt]
    );
}

#[test]
fn a_setting_read_as_zero_stays_zero() {
    let b = from_str(
        r#"{ "settings": {
            "hardness": { "base_value": 0.0 },
            "opaque_multiply": { "base_value": 0.0 },
            "opaque": { "base_value": 1.0 },
            "smudge": { "base_value": 0.0 },
            "eraser": { "base_value": -0.0 }
        } }"#,
    );
    assert_eq!(f(b.get(BrushSetting::Hardness).base_value), 0.0);
    assert!(b.get(BrushSetting::OpaqueMultiply).inputs.is_empty());
    let out = brush_to_raw(&b);
    assert_eq!(f(out.settings.get("hardness").unwrap().base_value), 0.0);
    assert!(out.settings.get("opaque_multiply").unwrap().inputs.is_empty());
    // A default that is not zero is written, and a zero that is read as zero
    // where it is left out is left out.
    assert_eq!(f(out.settings.get("opaque").unwrap().base_value), 1.0);
    assert!(out.settings.get("smudge").is_none());
    assert!(out.settings.get("eraser").is_none());
    let again = brush_from_raw(&out);
    for setting in BrushSetting::ALL {
        if setting == BrushSetting::Eraser {
            // A negative zero comes back without its sign.
            assert_eq!(b.get(setting).base_value.bits, 0x8000_0000);
            assert_eq!(again.get(setting).base_value.bits, 0);
        } else {
            assert_eq!(
                contents(b.get(setting)),
                contents(again.get(setting)),
                "{}",
                setting.cname()
            );
        }
    }
}
