use hokusai::brush::Brush;
use hokusai::double::Double;
use hokusai::elementary::{Elementary, Narrow, Wide};
use hokusai::fix15::FIX15_ONE;
use hokusai::mapping::SettingValue;
use hokusai::pixmap::{flatten_over_white, flatten_transparent};
use hokusai::render::{diff_mad, flatten, render, render_with_finish, RenderError, Script};
use hokusai::report::{
    mad_bytes, make_sample_script, rank, right_length, tally, verdict, Row, Verdict,
};
use hokusai::setting::BrushSetting;
use hokusai::single::Single;
use hokusai::surface::TiledSurface;
use hokusai::tile::TILE_SIZE;
use hokusai::tile_mem::MemSurface;

fn s(v: f32) -> Single {
    Single { bits: v.to_bits() }
}

fn f(v: Single) -> f32 {
    f32::from_bits(v.bits)
}

fn d(v: Double) -> f64 {
    f64::from_bits(v.bits)
}

fn math() -> Elementary<impl Fn(Narrow) -> Single, impl Fn(Wide) -> Double> {
    Elementary {
        narrow: |c: Narrow| {
            s(match c {
                Narrow::Exp(x) => f(x).exp(),
                Narrow::Sqrt(x) => f(x).sqrt(),
                Narrow::Cos(x) => f(x).cos(),
                Narrow::Sin(x) => f(x).sin(),
                Narrow::Hypot(x, y) => f(x).hypot(f(y)),
                Narrow::Atan2(y, x) => f(y).atan2(f(x)),
                Narrow::Pow(x, p) => f(x).powf(f(p)),
            })
        },
        wide: |c: Wide| Double {
            bits: match c {
                Wide::Ln(x) => d(x).ln(),
                Wide::Cos(x) => d(x).cos(),
                Wide::Sin(x) => d(x).sin(),
            }
            .to_bits(),
        },
    }
}


fn paint(surf: &mut MemSurface, tx: i32, ty: i32, x: usize, y: usize, p: [u16; 4]) {
    let tile = surf.tile_request_start(tx, ty);
    tile[y][x] = p;
    surf.tile_request_end(tx, ty);
}

#[test]
fn empty_surface_renders_white_or_transparent() {
    let surf = MemSurface::new();
    let pm_w = flatten_over_white(&surf, 4, 4, &math());
    assert_eq!(pm_w.pixels().len(), 16);
    for px in pm_w.pixels() {
        assert_eq!(px.red(), 255);
        assert_eq!(px.green(), 255);
        assert_eq!(px.blue(), 255);
        assert_eq!(px.alpha(), 255);
    }
    let pm_t = flatten_transparent(&surf, 4, 4, &math());
    for px in pm_t.pixels() {
        assert_eq!(px.alpha(), 0);
    }
}

#[test]
fn single_painted_pixel_round_trips() {
    let mut surf = MemSurface::new();
    surf.begin_atomic();
    let tile = surf.tile_request_start(0, 0);
    tile[0][0] = [FIX15_ONE as u16, 0, 0, FIX15_ONE as u16];
    surf.tile_request_end(0, 0);
    let _ = surf.end_atomic();

    let pm = flatten_over_white(&surf, TILE_SIZE as u32, TILE_SIZE as u32, &math());
    let px = pm.pixels()[0];
    assert_eq!(px.red(), 255);
    assert_eq!(px.green(), 0);
    assert_eq!(px.blue(), 0);
    assert_eq!(px.alpha(), 255);
}

#[test]
fn half_transparent_pixels_are_premultiplied_after_encoding() {
    let mut surf = MemSurface::new();
    // Half of full red, in the second tile of the second row.
    paint(&mut surf, 1, 1, 3, 2, [16384, 0, 0, 16384]);
    let pm = flatten_transparent(&surf, 80, 70, &math());
    assert_eq!((pm.width(), pm.height()), (80, 70));
    for (i, px) in pm.pixels().iter().enumerate() {
        let at = (i % 80, i / 80);
        let got = (px.red(), px.green(), px.blue(), px.alpha());
        if at == (67, 66) {
            assert_eq!(got, (128, 0, 0, 128));
        } else {
            assert_eq!(got, (0, 0, 0, 0));
        }
    }
    let over = flatten_over_white(&surf, 80, 70, &math());
    let px = over.pixels()[66 * 80 + 67];
    // Half linear light is 188 in sRGB.
    assert_eq!((px.red(), px.green(), px.blue(), px.alpha()), (255, 188, 188, 255));
}

#[test]
fn bytes_are_row_by_row_over_white() {
    let mut surf = MemSurface::new();
    paint(&mut surf, 1, 0, 2, 5, [0, 16384, 0, 16384]);
    paint(&mut surf, 0, 0, 0, 0, [0, 0, 0, 0]);
    let out = flatten(&surf, 70, 6, &math());
    assert_eq!(out.len(), 70 * 6 * 4);
    for (i, px) in out.chunks_exact(4).enumerate() {
        if (i % 70, i / 70) == (66, 5) {
            assert_eq!(px, [188, 255, 188, 255]);
        } else {
            assert_eq!(px, [255, 255, 255, 255]);
        }
    }
}

fn constant(v: f32) -> SettingValue {
    SettingValue::constant(s(v))
}

fn ink() -> Brush {
    let mut b = Brush::new();
    b.set(BrushSetting::Radius, constant(1.5));
    b.set(BrushSetting::DabsPerActualRadius, constant(2.0));
    b.set(BrushSetting::Opaque, constant(0.8));
    b.set(BrushSetting::Hardness, constant(0.7));
    b.set(BrushSetting::SlowTracking, constant(4.0));
    b
}

#[test]
fn scripts_paint_from_their_first_event_on() {
    let script = Script {
        width: 64,
        height: 32,
        events: vec![
            [s(8.0), s(16.0), s(1.0), s(0.02)],
            [s(56.0), s(16.0), s(1.0), s(0.02)],
        ],
    };
    let plain = render(&ink(), &script, &math());
    let finished = render_with_finish(&ink(), &script, &math());
    assert_eq!(plain.len(), 64 * 32 * 4);
    let dark = |px: &[u8]| px.chunks_exact(4).filter(|p| p[0] < 128).count();
    assert!(dark(&plain) > 0);
    assert!(dark(&finished) > dark(&plain), "finishing paints the tail");
    // Rendering is repeatable.
    assert_eq!(render(&ink(), &script, &math()), plain);
    let none = Script { width: 2, height: 1, events: vec![] };
    assert_eq!(render(&ink(), &none, &math()), vec![255; 8]);
}

#[test]
fn both_flattenings_agree_to_one_step() {
    let script = make_sample_script(&math());
    assert_eq!(script.events.len(), 41);
    assert_eq!(f(script.events[0][0]), 20.0);
    assert_eq!(f(script.events[40][0]), 260.0);
    assert_eq!(f(script.events[0][2]), 0.05);
    let bytes = render(&ink(), &script, &math());

    let mut surf = MemSurface::new();
    for y in 0..64usize {
        for x in 0..64usize {
            let a = (y * 500) as u16;
            paint(&mut surf, 0, 0, x, y, [(a as usize * x / 64) as u16, a / 2, a, a]);
        }
    }
    let one = flatten(&surf, 64, 64, &math());
    let other = flatten_over_white(&surf, 64, 64, &math());
    assert_eq!(one.len(), other.data().len());
    for (a, b) in one.iter().zip(other.data().iter()) {
        assert!(a.abs_diff(*b) <= 1);
    }
    assert!(right_length(bytes.len(), 320, 160));
    assert!(!right_length(bytes.len(), 320, 161));
}

#[test]
fn differences_and_verdicts() {
    assert_eq!(f(diff_mad(&[1, 2, 3, 4], &[1, 4, 1, 4])), 1.0);
    assert_eq!(f(diff_mad(&[0, 255], &[255, 0])), 255.0);
    assert!(f(diff_mad(&[], &[])).is_nan());
    // A length at which the mean of singles would round above 255.
    let (black, white) = (vec![0u8; 263188], vec![255u8; 263188]);
    assert_eq!(f(diff_mad(&black, &white)), 255.0);
    assert!(f(mad_bytes(&[1], &[1, 2])).is_nan());
    assert_eq!(verdict(s(0.5)), Verdict::Pass);
    assert_eq!(verdict(s(0.51)), Verdict::Warn);
    assert_eq!(verdict(s(5.0)), Verdict::Warn);
    assert_eq!(verdict(s(5.01)), Verdict::Fail);
    assert_eq!(verdict(s(f32::NAN)), Verdict::Missing);

    let row = |label: &str, mad: f32| Row { label: label.to_string(), mad: s(mad) };
    let mut rows =
        vec![row("a", 0.1), row("b", 7.0), row("c", 0.1), row("d", 3.0), row("e", f32::NAN)];
    assert_eq!(tally(&rows), (2, 1, 2));
    rows.pop();
    rank(&mut rows);
    let order: Vec<&str> = rows.iter().map(|r| r.label.as_str()).collect();
    assert_eq!(order, vec!["b", "d", "a", "c"]);
}

#[test]
fn render_errors_carry_their_message() {
    assert_eq!(RenderError("read x".to_string()).message(), "read x");
}
