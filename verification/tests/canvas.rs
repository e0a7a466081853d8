use hokusai::canvas::{HokusaiBrush, HokusaiCanvas};
use hokusai::double::Double;
use hokusai::elementary::{Elementary, Narrow, Wide};
use hokusai::myb::{default_version, RawBrush, RawSetting};
use hokusai::single::Single;
use hokusai::text::NameMap;
use serde_json::Value;

fn s(v: f32) -> Single {
    Single { bits: v.to_bits() }
}

fn f(v: Single) -> f32 {
    f32::from_bits(v.bits)
}

fn d(v: Double) -> f64 {
    f64::from_bits(v.bits)
}

fn math() -> Elementary<impl Fn(Narrow) -> Single, impl Fn(Wide) -> Double> {
    Elementary {
        narrow: |c: Narrow| {
            s(match c {
                Narrow::Exp(x) => f(x).exp(),
                Narrow::Sqrt(x) => f(x).sqrt(),
                Narrow::Cos(x) => f(x).cos(),
                Narrow::Sin(x) => f(x).sin(),
                Narrow::Hypot(x, y) => f(x).hypot(f(y)),
                Narrow::Atan2(y, x) => f(y).atan2(f(x)),
                Narrow::Pow(x, p) => f(x).powf(f(p)),
            })
        },
        wide: |c: Wide| Double {
            bits: match c {
                Wide::Ln(x) => d(x).ln(),
                Wide::Cos(x) => d(x).cos(),
                Wide::Sin(x) => d(x).sin(),
            }
            .to_bits(),
        },
    }
}

fn points(v: &Value) -> Vec<(Single, Single)> {
    v.as_array()
        .unwrap()
        .iter()
        .map(|p| (s(p[0].as_f64().unwrap() as f32), s(p[1].as_f64().unwrap() as f32)))
        .collect()
}

/// A brush file, by way of the JSON parser.
fn raw(json: &str) -> RawBrush {
    let v: Value = serde_json::from_str(json).unwrap();
    let text = |key: &str| v.get(key).and_then(|t| t.as_str()).map(|t| t.to_string());
    let mut settings = NameMap::new();
    if let Some(all) = v.get("settings").and_then(|m| m.as_object()) {
        for (name, setting) in all {
            let mut inputs = NameMap::new();
            if let Some(curves) = setting.get("inputs").and_then(|m| m.as_object()) {
                for (input, curve) in curves {
                    inputs.insert(input.clone(), points(curve));
                }
            }
            let base = setting.get("base_value").and_then(|b| b.as_f64()).unwrap_or(0.0);
            settings.insert(name.clone(), RawSetting { base_value: s(base as f32), inputs });
        }
    }
    RawBrush {
        version: v.get("version").and_then(|n| n.as_u64()).unwrap_or(default_version() as u64)
            as u32,
        group: text("group"),
        parent_brush_name: text("parent_brush_name"),
        comment: text("comment"),
        settings,
    }
}

const MINIMAL_BRUSH: &str = r#"{
    "version": 3,
    "settings": {
        "opaque": { "base_value": 1.0 },
        "hardness": { "base_value": 0.5 },
        "radius_logarithmic": { "base_value": 2.0 },
        "dabs_per_actual_radius": { "base_value": 2.0 }
    }
}"#;

fn brush(json: &str) -> HokusaiBrush {
    HokusaiBrush::from_raw(&raw(json))
}

fn stroke(
    c: &mut HokusaiCanvas,
    b: &HokusaiBrush,
    x: f32,
    y: f32,
    pressure: f32,
    xtilt: f32,
    ytilt: f32,
    dtime: f64,
) {
    let dtime = Double { bits: dtime.to_bits() };
    c.stroke_to(b, s(x), s(y), s(pressure), s(xtilt), s(ytilt), dtime, &math());
}

#[test]
fn brush_parses_minimal_myb() {
    let b = brush(MINIMAL_BRUSH);
    assert_eq!(f(b.radius_log()), 2.0);
}

#[test]
fn canvas_has_declared_dimensions() {
    let c = HokusaiCanvas::new(128, 64);
    assert_eq!(c.width(), 128);
    assert_eq!(c.height(), 64);
}

#[test]
fn pixels_buffer_is_rgba8_sized() {
    let mut c = HokusaiCanvas::new(32, 16);
    let px = c.pixels(&math());
    assert_eq!(px.len(), (32 * 16 * 4) as usize);
    assert_eq!(&px[..4], &[255, 255, 255, 255]);
}

#[test]
fn first_stroke_event_seeds_no_pixels() {
    let mut b = brush(MINIMAL_BRUSH);
    b.set_color_hsv(s(0.0), s(0.0), s(0.0));
    let mut c = HokusaiCanvas::new(64, 64);
    stroke(&mut c, &b, 10.0, 10.0, 1.0, 0.0, 0.0, 0.01);
    let px = c.pixels(&math());
    assert!(px.iter().all(|&b| b == 255));
}

#[test]
fn two_events_paint_pixels() {
    let mut b = brush(MINIMAL_BRUSH);
    b.set_color_hsv(s(0.0), s(0.0), s(0.0));
    let mut c = HokusaiCanvas::new(64, 64);
    stroke(&mut c, &b, 10.0, 32.0, 1.0, 0.0, 0.0, 0.01);
    stroke(&mut c, &b, 50.0, 32.0, 1.0, 0.0, 0.0, 0.01);
    let px = c.pixels(&math());
    let any_dark = px.chunks_exact(4).any(|p| p[0] < 200 && p[1] < 200 && p[2] < 200);
    assert!(any_dark, "expected dab pixels in the stroke region");
}

#[test]
fn reset_stroke_breaks_segment() {
    let b = brush(MINIMAL_BRUSH);
    let mut c = HokusaiCanvas::new(64, 64);
    stroke(&mut c, &b, 10.0, 10.0, 1.0, 0.0, 0.0, 0.01);
    stroke(&mut c, &b, 20.0, 10.0, 1.0, 0.0, 0.0, 0.01);
    c.reset_stroke();
    // Without the reset this would draw a line across the canvas.
    stroke(&mut c, &b, 50.0, 50.0, 1.0, 0.0, 0.0, 0.01);
    let px = c.pixels(&math());
    let idx = ((30 * 64 + 35) * 4) as usize;
    assert_eq!(&px[idx..idx + 4], &[255, 255, 255, 255]);
}

#[test]
fn tilt_arguments_accepted_and_affect_output() {
    let json = r#"{
        "version": 3,
        "settings": {
            "opaque": { "base_value": 1.0 },
            "hardness": { "base_value": 1.0 },
            "radius_logarithmic": { "base_value": 2.0 },
            "dabs_per_actual_radius": { "base_value": 2.0 },
            "elliptical_dab_ratio": { "base_value": 4.0 },
            "elliptical_dab_angle": {
                "base_value": 0.0,
                "inputs": { "tilt_ascension": [[-180.0, -180.0], [180.0, 180.0]] }
            }
        }
    }"#;
    let b = brush(json);

    let mut one = HokusaiCanvas::new(80, 80);
    stroke(&mut one, &b, 20.0, 40.0, 1.0, 1.0, 0.0, 0.01);
    stroke(&mut one, &b, 60.0, 40.0, 1.0, 1.0, 0.0, 0.01);

    let mut other = HokusaiCanvas::new(80, 80);
    stroke(&mut other, &b, 20.0, 40.0, 1.0, 0.0, 1.0, 0.01);
    stroke(&mut other, &b, 60.0, 40.0, 1.0, 0.0, 1.0, 0.01);

    let pa = one.pixels(&math());
    let pb = other.pixels(&math());
    assert_ne!(pa, pb, "tilt_ascension should change pixel output");
}

#[test]
fn clearing_makes_the_canvas_white_again() {
    let mut b = brush(MINIMAL_BRUSH);
    b.set_color_hsv(s(0.0), s(0.0), s(0.0));
    b.set_radius_log(s(1.5));
    assert_eq!(f(b.radius_log()), 1.5);
    let mut c = HokusaiCanvas::new(48, 32);
    stroke(&mut c, &b, 10.0, 16.0, 1.0, 0.0, 0.0, 0.01);
    stroke(&mut c, &b, 40.0, 16.0, 1.0, 0.0, 0.0, 0.01);
    c.finish_stroke(&b, &math());
    assert_eq!(c.pixels_len(), 48 * 32 * 4);
    c.flush_pixels(&math());
    assert!(c.pixels.iter().any(|&v| v < 255));
    c.clear();
    let px = c.pixels(&math());
    assert!(px.iter().all(|&v| v == 255));
}
