use hokusai::brush::Brush;
use hokusai::double::Double;
use hokusai::elementary::{Elementary, Narrow, Wide};
use hokusai::myb::{brush_from_raw, default_version, RawBrush, RawSetting};
use hokusai::pixmap::flatten_over_white;
use hokusai::rand::SampleRng;
use hokusai::render::{render, Script};
use hokusai::single::Single;
use hokusai::state::BrushState;
use hokusai::text::NameMap;
use hokusai::tile_mem::MemSurface;
use serde_json::Value;

fn s(v: f32) -> Single {
    Single { bits: v.to_bits() }
}

fn f(v: Single) -> f32 {
    f32::from_bits(v.bits)
}

fn d(v: Double) -> f64 {
    f64::from_bits(v.bits)
}

fn math() -> Elementary<impl Fn(Narrow) -> Single, impl Fn(Wide) -> Double> {
    Elementary {
        narrow: |c: Narrow| {
            s(match c {
                Narrow::Exp(x) => f(x).exp(),
                Narrow::Sqrt(x) => f(x).sqrt(),
                Narrow::Cos(x) => f(x).cos(),
                Narrow::Sin(x) => f(x).sin(),
                Narrow::Hypot(x, y) => f(x).hypot(f(y)),
                Narrow::Atan2(y, x) => f(y).atan2(f(x)),
                Narrow::Pow(x, p) => f(x).powf(f(p)),
            })
        },
        wide: |c: Wide| Double {
            bits: match c {
                Wide::Ln(x) => d(x).ln(),
                Wide::Cos(x) => d(x).cos(),
                Wide::Sin(x) => d(x).sin(),
            }
            .to_bits(),
        },
    }
}

fn points(v: &Value) -> Vec<(Single, Single)> {
    v.as_array()
        .unwrap()
        .iter()
        .map(|p| (s(p[0].as_f64().unwrap() as f32), s(p[1].as_f64().unwrap() as f32)))
        .collect()
}

/// A brush file, by way of the JSON parser.
fn raw(json: &str) -> RawBrush {
    let v: Value = serde_json::from_str(json).unwrap();
    let text = |key: &str| v.get(key).and_then(|t| t.as_str()).map(|t| t.to_string());
    let mut settings = NameMap::new();
    if let Some(all) = v.get("settings").and_then(|m| m.as_object()) {
        for (name, setting) in all {
            let mut inputs = NameMap::new();
            if let Some(curves) = setting.get("inputs").and_then(|m| m.as_object()) {
                for (input, curve) in curves {
                    inputs.insert(input.clone(), points(curve));
                }
            }
            let base = setting.get("base_value").and_then(|b| b.as_f64()).unwrap_or(0.0);
            settings.insert(name.clone(), RawSetting { base_value: s(base as f32), inputs });
        }
    }
    RawBrush {
        version: v.get("version").and_then(|n| n.as_u64()).unwrap_or(default_version() as u64)
            as u32,
        group: text("group"),
        parent_brush_name: text("parent_brush_name"),
        comment: text("comment"),
        settings,
    }
}

/// A broad marker with an even edge.
const MARKER_FAT: &str = r#"{
    "version": 3,
    "settings": {
        "anti_aliasing": { "base_value": 1.0 },
        "color_h": { "base_value": 0.58 },
        "color_s": { "base_value": 0.8 },
        "color_v": { "base_value": 0.6 },
        "dabs_per_actual_radius": { "base_value": 4.37 },
        "dabs_per_basic_radius": { "base_value": 0.0 },
        "elliptical_dab_angle": { "base_value": 90.0 },
        "elliptical_dab_ratio": { "base_value": 1.0 },
        "hardness": { "base_value": 0.84 },
        "opaque": { "base_value": 0.85 },
        "opaque_linearize": { "base_value": 0.9 },
        "opaque_multiply": {
            "base_value": 0.0,
            "inputs": { "pressure": [[0.0, 0.0], [0.111111, 0.5], [0.308642, 0.833333], [1.0, 1.0]] }
        },
        "radius_logarithmic": { "base_value": 2.48 },
        "slow_tracking": { "base_value": 0.0 },
        "slow_tracking_per_dab": { "base_value": 0.4 },
        "speed1_gamma": { "base_value": 2.87 },
        "speed1_slowness": { "base_value": 0.04 },
        "speed2_gamma": { "base_value": 4.0 },
        "speed2_slowness": { "base_value": 0.8 }
    }
}"#;

/// A broad nib at an angle, which follows the pen slowly.
const CALLIGRAPHY: &str = r#"{
    "version": 3,
    "settings": {
        "anti_aliasing": { "base_value": 3.53 },
        "color_v": { "base_value": 0.0 },
        "dabs_per_actual_radius": { "base_value": 2.2 },
        "dabs_per_basic_radius": { "base_value": 0.0 },
        "direction_filter": { "base_value": 2.0 },
        "elliptical_dab_angle": { "base_value": 45.92 },
        "elliptical_dab_ratio": { "base_value": 5.46 },
        "hardness": { "base_value": 0.8 },
        "opaque": { "base_value": 1.0 },
        "opaque_linearize": { "base_value": 0.9 },
        "opaque_multiply": {
            "base_value": 0.0,
            "inputs": { "pressure": [[0.0, 0.0], [0.015, 0.0], [0.015, 1.0], [1.0, 1.0]] }
        },
        "radius_logarithmic": {
            "base_value": 2.02,
            "inputs": {
                "pressure": [[0.0, 0.0], [1.0, 0.5]],
                "speed1": [[0.0, 0.0], [1.0, -0.12]]
            }
        },
        "slow_tracking": { "base_value": 0.65 },
        "slow_tracking_per_dab": { "base_value": 0.8 },
        "speed1_gamma": { "base_value": 2.87 },
        "speed1_slowness": { "base_value": 0.04 },
        "speed2_gamma": { "base_value": 4.0 },
        "speed2_slowness": { "base_value": 0.8 }
    }
}"#;

/// Small soft dabs, scattered about the pen.
const CHARCOAL: &str = r#"{
    "version": 3,
    "settings": {
        "anti_aliasing": { "base_value": 0.0 },
        "color_v": { "base_value": 0.0 },
        "dabs_per_actual_radius": { "base_value": 5.0 },
        "dabs_per_basic_radius": { "base_value": 0.0 },
        "hardness": {
            "base_value": 0.2,
            "inputs": { "pressure": [[0.0, 0.0], [1.0, 0.4]] }
        },
        "offset_by_random": {
            "base_value": 1.6,
            "inputs": { "pressure": [[0.0, 0.0], [1.0, -1.4]] }
        },
        "opaque": {
            "base_value": 0.4,
            "inputs": { "pressure": [[0.0, 0.0], [1.0, 0.4]] }
        },
        "opaque_linearize": { "base_value": 0.0 },
        "opaque_multiply": {
            "base_value": 0.0,
            "inputs": { "pressure": [[0.0, 0.0], [1.0, 1.0]] }
        },
        "radius_logarithmic": { "base_value": 0.7 },
        "slow_tracking_per_dab": { "base_value": 2.0 },
        "speed1_gamma": { "base_value": 4.0 },
        "speed1_slowness": { "base_value": 0.04 },
        "speed2_gamma": { "base_value": 4.0 },
        "speed2_slowness": { "base_value": 0.8 }
    }
}"#;

fn brush(json: &str) -> Brush {
    brush_from_raw(&raw(json))
}

fn horizontal_script(y: f32, dx: f32, dt: f32, n: usize) -> Script {
    let mut events = Vec::with_capacity(n + 1);
    let start_x = 20.0;
    for i in 0..=n {
        events.push([s(start_x + dx * i as f32), s(y), s(1.0), s(dt)]);
    }
    Script {
        width: (start_x as u32) + (dx as u32) * (n as u32) + 40,
        height: 80,
        events,
    }
}

struct GapInfo {
    longest: u32,
    longest_start: u32,
}

/// The longest run of all-white columns within `band_y..band_y + band_h`, and
/// where it starts.
fn longest_white_run(
    pixels: &[u8],
    width: u32,
    band_y: u32,
    band_h: u32,
    x_range: std::ops::Range<u32>,
) -> GapInfo {
    let mut longest = 0u32;
    let mut longest_start = 0u32;
    let mut current = 0u32;
    let mut current_start = x_range.start;
    for x in x_range {
        let painted = (band_y..band_y + band_h).any(|y| {
            let i = ((y * width + x) * 4) as usize;
            pixels[i..i + 3].iter().any(|&c| c < 250)
        });
        if painted {
            current = 0;
            current_start = x + 1;
        } else {
            current += 1;
            if current > longest {
                longest = current;
                longest_start = current_start;
            }
        }
    }
    GapInfo { longest, longest_start }
}

const MAX_GAP_PX: u32 = 6;

fn check(name: &str, json: &str) {
    let script = horizontal_script(40.0, 8.0, 0.016, 80);
    let pixels = render(&brush(json), &script, &math());
    let gap = longest_white_run(&pixels, script.width, 30, 20, 40..(script.width - 40));
    assert!(
        gap.longest <= MAX_GAP_PX,
        "{name}: longest white run = {} px at x={} (allowed <= {MAX_GAP_PX})",
        gap.longest,
        gap.longest_start,
    );
}

#[test]
fn marker_fat_horizontal_no_big_gaps() {
    // A burst of pointer moves: 16 ms to an event, about 8 px between events.
    check("marker_fat", MARKER_FAT);
}

#[test]
fn calligraphy_horizontal_no_big_gaps() {
    check("calligraphy", CALLIGRAPHY);
}

#[test]
fn charcoal_horizontal_no_big_gaps() {
    check("charcoal", CHARCOAL);
}

#[test]
fn lines_have_gaps_where_the_pen_was_up() {
    let mut script = horizontal_script(40.0, 8.0, 0.016, 80);
    for event in script.events.iter_mut().skip(30).take(20) {
        event[2] = s(0.0);
    }
    let pixels = render(&brush(MARKER_FAT), &script, &math());
    let gap = longest_white_run(&pixels, script.width, 30, 20, 40..(script.width - 40));
    assert!(gap.longest > 60, "{}", gap.longest);
}

fn wave() -> Script {
    let events = (0..60)
        .map(|i| {
            let t = i as f32 / 59.0;
            let y = 64.0 + 40.0 * (t * 12.566371).sin();
            [s(20.0 + 216.0 * t), s(y), s(0.2 + 0.8 * t), s(0.016)]
        })
        .collect();
    Script { width: 256, height: 128, events }
}

fn render_to_surface(brush: &Brush, script: &Script) -> MemSurface {
    let mut state = BrushState::default();
    let mut surface = MemSurface::new();
    let mut rng = SampleRng::new();
    let still = s(0.0);
    if let Some(first) = script.events.first() {
        brush.stroke_to(
            &mut state,
            &mut surface,
            first[0],
            first[1],
            still,
            still,
            still,
            Double { bits: 10.0f64.to_bits() },
            &mut rng,
            &math(),
        );
    }
    for ev in &script.events {
        brush.stroke_to(
            &mut state,
            &mut surface,
            ev[0],
            ev[1],
            ev[2],
            still,
            still,
            Double { bits: (f(ev[3]) as f64).to_bits() },
            &mut rng,
            &math(),
        );
    }
    surface
}

#[test]
fn flatten_matches_compat_render() {
    let script = wave();
    let brush = brush(CALLIGRAPHY);
    let compat = render(&brush, &script, &math());
    let surf = render_to_surface(&brush, &script);
    let pm = flatten_over_white(&surf, script.width, script.height, &math());
    let pm_bytes = pm.data();
    assert_eq!(pm_bytes.len(), compat.len(), "buffer length");
    assert!(compat.iter().any(|&b| b < 250));
    // One step of rounding is allowed on the colour channels; alpha is 255 on
    // both ways.
    let mut max_diff = 0u8;
    let mut mismatches = 0u64;
    for (a, b) in pm_bytes.iter().zip(compat.iter()) {
        let d = a.abs_diff(*b);
        if d > 0 {
            mismatches += 1;
            if d > max_diff {
                max_diff = d;
            }
        }
    }
    assert!(
        max_diff <= 1,
        "flattening diverged: max byte diff {max_diff} over {mismatches} pixels"
    );
}
