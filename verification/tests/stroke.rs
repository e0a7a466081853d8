use hokusai::brush::Brush;
use hokusai::color::RgbaF32;
use hokusai::dab_surface::DabSurface;
use hokusai::double::Double;
use hokusai::elementary::{Elementary, Narrow, Wide};
use hokusai::input::BrushInput;
use hokusai::mapping::{InputMapping, SettingValue};
use hokusai::rand::SampleRng;
use hokusai::setting::BrushSetting;
use hokusai::single::Single;
use hokusai::state::BrushState;
use hokusai::surface::{Dab, Turn};
use hokusai::tile_mem::MemSurface;

fn s(v: f32) -> Single {
    Single { bits: v.to_bits() }
}

fn f(v: Single) -> f32 {
    f32::from_bits(v.bits)
}

fn d(v: Double) -> f64 {
    f64::from_bits(v.bits)
}

fn math() -> Elementary<impl Fn(Narrow) -> Single, impl Fn(Wide) -> Double> {
    Elementary {
        narrow: |c: Narrow| {
            s(match c {
                Narrow::Exp(x) => f(x).exp(),
                Narrow::Sqrt(x) => f(x).sqrt(),
                Narrow::Cos(x) => f(x).cos(),
                Narrow::Sin(x) => f(x).sin(),
                Narrow::Hypot(x, y) => f(x).hypot(f(y)),
                Narrow::Atan2(y, x) => f(y).atan2(f(x)),
                Narrow::Pow(x, p) => f(x).powf(f(p)),
            })
        },
        wide: |c: Wide| Double {
            bits: match c {
                Wide::Ln(x) => d(x).ln(),
                Wide::Cos(x) => d(x).cos(),
                Wide::Sin(x) => d(x).sin(),
            }
            .to_bits(),
        },
    }
}

/// A surface that only remembers the dabs.
struct DabList {
    dabs: Vec<Dab>,
}

impl DabList {
    fn new() -> DabList {
        DabList { dabs: Vec::new() }
    }

    fn count(&self) -> usize {
        self.dabs.len()
    }
}

impl DabSurface for DabList {
    type Shown = ();

    fn shown(&self) {
        unreachable!()
    }

    fn ready(&self) -> bool {
        unreachable!()
    }

    fn dabbed(_shown: (), _dab: Dab, _turn: Turn) {
        unreachable!()
    }

    fn marked(_shown: (), _dab: Dab, _turn: Turn) -> bool {
        unreachable!()
    }

    fn color_in(_shown: (), _x: Single, _y: Single, _radius: Single) -> RgbaF32 {
        unreachable!()
    }

    fn pigment_in(
        _shown: (),
        _x: Single,
        _y: Single,
        _radius: Single,
        _paint: Single,
        _rng: SampleRng,
    ) -> (RgbaF32, SampleRng) {
        unreachable!()
    }

    fn draw_dab(&mut self, dab: &Dab, _turn: Turn) -> bool {
        self.dabs.push(*dab);
        true
    }

    fn get_color(&self, _x: Single, _y: Single, _radius: Single) -> RgbaF32 {
        RgbaF32::transparent()
    }

    fn get_color_pigment(
        &self,
        _x: Single,
        _y: Single,
        _radius: Single,
        _paint: Single,
        _rng: &mut SampleRng,
    ) -> RgbaF32 {
        RgbaF32::transparent()
    }
}

fn stroke<S: DabSurface>(
    brush: &Brush,
    state: &mut BrushState,
    surf: &mut S,
    x: f32,
    y: f32,
    pressure: f32,
    xtilt: f32,
    ytilt: f32,
    dtime: f64,
) -> bool {
    let mut rng = SampleRng::new();
    brush.stroke_to(
        state,
        surf,
        s(x),
        s(y),
        s(pressure),
        s(xtilt),
        s(ytilt),
        Double { bits: dtime.to_bits() },
        &mut rng,
        &math(),
    )
}

fn constant(v: f32) -> SettingValue {
    SettingValue::constant(s(v))
}

fn make_brush(radius_log: f32, dabs_per_actual_radius: f32) -> Brush {
    let mut b = Brush::new();
    b.set(BrushSetting::Radius, constant(radius_log));
    b.set(BrushSetting::DabsPerActualRadius, constant(dabs_per_actual_radius));
    b.set(BrushSetting::Opaque, constant(1.0));
    b.set(BrushSetting::Hardness, constant(0.5));
    b
}

#[test]
fn no_movement_no_dabs() {
    let brush = make_brush(1.0, 2.0);
    let mut state = BrushState::default();
    let mut surf = DabList::new();
    let painted = stroke(&brush, &mut state, &mut surf, 0.0, 0.0, 1.0, 0.0, 0.0, 0.01);
    assert!(!painted);
    assert_eq!(surf.count(), 0);
}

#[test]
fn moves_emit_proportional_dabs() {
    // 20 px are about 7.36 radii of exp(1); with two dabs to a radius that
    // makes about 14.7 dabs.
    let brush = make_brush(1.0, 2.0);
    let mut state = BrushState::default();
    let mut surf = DabList::new();
    stroke(&brush, &mut state, &mut surf, 0.0, 0.0, 1.0, 0.0, 0.0, 0.01);
    stroke(&brush, &mut state, &mut surf, 20.0, 0.0, 1.0, 0.0, 0.0, 0.01);
    assert!((12..=16).contains(&surf.count()), "expected ~14 dabs, got {}", surf.count());
}

#[test]
fn slow_tracking_smooths_position() {
    let a = make_brush(1.0, 2.0);
    let mut b = make_brush(1.0, 2.0);
    b.set(BrushSetting::SlowTracking, constant(0.9));

    let mut sa = BrushState::default();
    let mut sb = BrushState::default();
    let mut surf_a = DabList::new();
    let mut surf_b = DabList::new();

    stroke(&a, &mut sa, &mut surf_a, 0.0, 0.0, 1.0, 0.0, 0.0, 0.01);
    stroke(&a, &mut sa, &mut surf_a, 20.0, 0.0, 1.0, 0.0, 0.0, 0.01);
    stroke(&b, &mut sb, &mut surf_b, 0.0, 0.0, 1.0, 0.0, 0.0, 0.01);
    stroke(&b, &mut sb, &mut surf_b, 20.0, 0.0, 1.0, 0.0, 0.0, 0.01);

    assert!(
        surf_b.count() < surf_a.count(),
        "slow_tracking should suppress dab count: {} >= {}",
        surf_b.count(),
        surf_a.count()
    );
}

#[test]
fn slower_tracking_makes_no_more_dabs() {
    for goal in [(20.0, 0.0), (12.0, -31.0), (3.0, 2.0), (0.5, 0.0)] {
        let mut last = (usize::MAX, f32::MAX);
        for slow in [0.0, 0.1, 0.4, 0.9, 2.0, 7.0, 50.0] {
            let mut brush = make_brush(1.0, 2.0);
            brush.set(BrushSetting::SlowTracking, constant(slow));
            let mut state = BrushState::default();
            let mut surf = DabList::new();
            stroke(&brush, &mut state, &mut surf, 0.0, 0.0, 1.0, 0.0, 0.0, 0.01);
            stroke(&brush, &mut state, &mut surf, goal.0, goal.1, 1.0, 0.0, 0.0, 0.01);
            let way = f(state.actual_x).hypot(f(state.actual_y));
            assert!(surf.count() as usize <= last.0, "{slow}: {} > {}", surf.count(), last.0);
            assert!(way <= last.1, "{slow}: {way} > {}", last.1);
            last = (surf.count() as usize, way);
        }
    }
}

#[test]
fn stroke_threshold_drives_stroke_state_reset() {
    let mut brush = make_brush(1.0, 2.0);
    brush.set(BrushSetting::StrokeThreshold, constant(0.5));
    let mut state = BrushState::default();
    let mut surf = DabList::new();
    // Below the threshold the stroke does not start, but dabs still land.
    stroke(&brush, &mut state, &mut surf, 0.0, 0.0, 0.3, 0.0, 0.0, 0.01);
    stroke(&brush, &mut state, &mut surf, 20.0, 0.0, 0.3, 0.0, 0.0, 0.01);
    assert!(surf.count() > 0, "stroke_threshold no longer gates dab emission");
    assert!(!state.stroke_started, "0.3 < threshold 0.5, started stays off");

    let mut s2 = BrushState::default();
    let mut surf2 = DabList::new();
    stroke(&brush, &mut s2, &mut surf2, 0.0, 0.0, 0.0, 0.0, 0.0, 0.01);
    s2.stroke_state = s(0.7);
    stroke(&brush, &mut s2, &mut surf2, 1.0, 0.0, 0.8, 0.0, 0.0, 0.01);
    assert!(s2.stroke_started, "pressure above threshold sets started=true");
    // The rising edge resets the stroke, and the rest of the event advances
    // it again.
    assert!(
        f(s2.stroke_state) < 0.7,
        "rising-edge reset restarts stroke_state (got {})",
        f(s2.stroke_state)
    );
}

#[test]
fn tracking_noise_shifts_dab_positions() {
    let mut noise_brush = make_brush(1.0, 2.0);
    noise_brush.set(BrushSetting::TrackingNoise, constant(0.5));
    let plain = make_brush(1.0, 2.0);

    let mut sa = BrushState::default();
    let mut sb = BrushState::default();
    let mut ca = DabList::new();
    let mut cb = DabList::new();

    stroke(&plain, &mut sa, &mut ca, 0.0, 0.0, 1.0, 0.0, 0.0, 0.01);
    stroke(&plain, &mut sa, &mut ca, 20.0, 0.0, 1.0, 0.0, 0.0, 0.01);
    stroke(&noise_brush, &mut sb, &mut cb, 0.0, 0.0, 1.0, 0.0, 0.0, 0.01);
    stroke(&noise_brush, &mut sb, &mut cb, 20.0, 0.0, 1.0, 0.0, 0.0, 0.01);

    let any_differ = ca
        .dabs
        .iter()
        .zip(cb.dabs.iter())
        .any(|(a, b)| (f(a.x) - f(b.x)).abs() > 1e-3);
    assert!(
        any_differ || ca.count() != cb.count(),
        "tracking_noise should perturb the dab stream"
    );
}

#[test]
fn speed_slowness_smooths_speed_input() {
    let mut b = make_brush(1.0, 2.0);
    b.set(BrushSetting::Speed1Slowness, constant(0.99));
    let mut state = BrushState::default();
    let mut surf = DabList::new();
    stroke(&b, &mut state, &mut surf, 0.0, 0.0, 1.0, 0.0, 0.0, 0.01);
    stroke(&b, &mut state, &mut surf, 200.0, 0.0, 1.0, 0.0, 0.0, 0.01);
    let smoothed = f(state.norm_speed1_slow);

    let b2 = make_brush(1.0, 2.0);
    let mut state2 = BrushState::default();
    let mut surf2 = DabList::new();
    stroke(&b2, &mut state2, &mut surf2, 0.0, 0.0, 1.0, 0.0, 0.0, 0.01);
    stroke(&b2, &mut state2, &mut surf2, 200.0, 0.0, 1.0, 0.0, 0.0, 0.01);
    let raw = f(state2.norm_speed1_slow);

    assert!(smoothed < raw, "slowness should suppress speed1_slow ({smoothed} >= {raw})");
}

#[test]
fn tilt_declination_follows_libmypaint_convention() {
    // The declination is 90 for an upright pen and falls as it leans, so a
    // curve that rises with it makes the leaning stroke smaller.
    let mut tilt_brush = make_brush(1.0, 2.0);
    let mut radius = constant(1.0);
    radius.inputs.push(InputMapping {
        input: BrushInput::TiltDeclination,
        points: vec![(s(0.0), s(0.0)), (s(90.0), s(1.0))],
    });
    tilt_brush.set(BrushSetting::Radius, radius);
    let mut s1 = BrushState::default();
    let mut surf1 = DabList::new();
    stroke(&tilt_brush, &mut s1, &mut surf1, 0.0, 0.0, 1.0, 0.0, 0.0, 0.01);
    stroke(&tilt_brush, &mut s1, &mut surf1, 10.0, 0.0, 1.0, 0.0, 0.0, 0.01);
    let r_upright = f(s1.actual_radius);

    let mut s2 = BrushState::default();
    let mut surf2 = DabList::new();
    stroke(&tilt_brush, &mut s2, &mut surf2, 0.0, 0.0, 1.0, 1.0, 0.0, 0.01);
    stroke(&tilt_brush, &mut s2, &mut surf2, 10.0, 0.0, 1.0, 1.0, 0.0, 0.01);
    let r_tilted = f(s2.actual_radius);

    assert!(
        r_upright > r_tilted,
        "upright pen has higher declination → bigger radius via curve: {r_upright} <= {r_tilted}"
    );
}

#[test]
fn change_color_h_drifts_hue() {
    let mut brush = make_brush(1.0, 2.0);
    brush.set(BrushSetting::ColorH, constant(0.0));
    brush.set(BrushSetting::ColorS, constant(1.0));
    brush.set(BrushSetting::ColorV, constant(1.0));
    brush.set(BrushSetting::ChangeColorH, constant(0.5));
    let mut state = BrushState::default();
    let mut surf = DabList::new();
    stroke(&brush, &mut state, &mut surf, 0.0, 0.0, 1.0, 0.0, 0.0, 0.01);
    let h0 = f(state.actual_h);
    stroke(&brush, &mut state, &mut surf, 20.0, 0.0, 1.0, 0.0, 0.0, 0.01);
    let h1 = f(state.actual_h);
    assert!((h1 - h0).abs() > 0.01, "hue should drift, h0={h0}, h1={h1}");
}

#[test]
fn a_pause_begins_a_new_stroke() {
    let brush = make_brush(1.0, 2.0);
    let mut state = BrushState::default();
    let mut surf = DabList::new();
    stroke(&brush, &mut state, &mut surf, 0.0, 0.0, 1.0, 0.0, 0.0, 0.01);
    assert!(!stroke(&brush, &mut state, &mut surf, 50.0, 0.0, 1.0, 0.0, 0.0, 5.0));
    assert_eq!(surf.count(), 0);
    assert_eq!(f(state.actual_x), 50.0);
    assert_eq!(f(state.stroke_state), 1.0);
}

#[test]
fn events_inside_the_skip_window_are_dropped() {
    let mut brush = make_brush(3.0, 2.0);
    brush.set(BrushSetting::TrackingNoise, constant(1.0));
    let mut state = BrushState::default();
    let mut surf = DabList::new();
    stroke(&brush, &mut state, &mut surf, 0.0, 0.0, 1.0, 0.0, 0.0, 0.01);
    stroke(&brush, &mut state, &mut surf, 40.0, 0.0, 1.0, 0.0, 0.0, 0.01);
    let window = f(state.skip_distance);
    assert!((window - 0.5 * 3.0f32.exp()).abs() < 1e-3);
    let (count, next) = (surf.count(), state.rng.clone().next_unit_f64());
    // One pixel on, still inside the window of ten.
    assert!(!stroke(&brush, &mut state, &mut surf, 41.0, 0.0, 0.2, 0.0, 0.0, 0.01));
    assert_eq!(surf.count(), count);
    assert_eq!(state.rng.clone().next_unit_f64(), next);
    assert!((f(state.skip_distance) - (window - 1.0)).abs() < 1e-3);
    assert_eq!(f(state.last_pressure), 1.0);
    // Far out of it.
    assert!(stroke(&brush, &mut state, &mut surf, 90.0, 0.0, 0.2, 0.0, 0.0, 0.01));
    assert!(surf.count() > count);
}

#[test]
fn dabs_alternate_their_flip() {
    let mut brush = make_brush(2.0, 2.0);
    brush.set(BrushSetting::OffsetAngle2, constant(1.0));
    let mut state = BrushState::default();
    let mut surf = DabList::new();
    stroke(&brush, &mut state, &mut surf, 0.0, 0.0, 1.0, 0.0, 0.0, 0.01);
    assert_eq!(f(state.flip), -1.0);
    stroke(&brush, &mut state, &mut surf, 40.0, 0.0, 1.0, 0.0, 0.0, 0.01);
    assert!(surf.count() >= 4);
    for pair in surf.dabs.windows(2) {
        assert!(f(pair[0].y) * f(pair[1].y) < 0.0, "dabs lie on both sides by turns");
    }
}

#[test]
fn finishing_catches_up_with_the_cursor() {
    let mut brush = make_brush(1.0, 2.0);
    brush.set(BrushSetting::SlowTracking, constant(5.0));
    let mut state = BrushState::default();
    let mut surf = DabList::new();
    let mut rng = SampleRng::new();
    assert!(!brush.finish_stroke(&mut state, &mut surf, &mut rng, &math()));
    stroke(&brush, &mut state, &mut surf, 0.0, 0.0, 1.0, 0.0, 0.0, 0.01);
    stroke(&brush, &mut state, &mut surf, 60.0, 0.0, 1.0, 0.0, 0.0, 0.01);
    let behind = 60.0 - f(state.actual_x);
    assert!(brush.finish_stroke(&mut state, &mut surf, &mut rng, &math()));
    let left = 60.0 - f(state.actual_x);
    assert!(behind > 30.0 && left < 6.0, "{behind} -> {left}");
}

#[test]
fn smudging_picks_up_the_canvas() {
    // A red field, then a smudge brush of another colour dragged out of it.
    let mut red = make_brush(3.0, 4.0);
    red.set(BrushSetting::Hardness, constant(1.0));
    red.set(BrushSetting::ColorS, constant(1.0));
    red.set(BrushSetting::ColorV, constant(1.0));
    let mut smudge = make_brush(2.0, 4.0);
    smudge.set(BrushSetting::Smudge, constant(1.0));
    smudge.set(BrushSetting::SmudgeLength, constant(0.5));
    let mut surf = MemSurface::new();
    let mut state = BrushState::default();
    stroke(&red, &mut state, &mut surf, 20.0, 30.0, 1.0, 0.0, 0.0, 0.01);
    stroke(&red, &mut state, &mut surf, 40.0, 30.0, 1.0, 0.0, 0.0, 0.01);
    let clear = surf.tile(1, 0).map(|t| t[30][20][3]).unwrap_or(0);
    assert_eq!(clear, 0);
    let mut drag = BrushState::default();
    stroke(&smudge, &mut drag, &mut surf, 30.0, 30.0, 1.0, 0.0, 0.0, 0.01);
    stroke(&smudge, &mut drag, &mut surf, 70.0, 30.0, 1.0, 0.0, 0.0, 0.05);
    assert!(f(drag.smudge_ra) > 0.0 && f(drag.smudge_ga) < 0.01);
    let p = surf.tile(1, 0).expect("painted")[30][2];
    assert!(p[0] > 0 && p[1] == 0 && p[2] == 0, "{p:?}");
}

/// The stroke engine in ordinary floating point, for a brush with a constant
/// radius, opacity and spacing only.
fn plain_dabs(radius_log: f32, per_radius: f32, points: &[(f32, f32)]) -> Vec<(f32, f32)> {
    let base = radius_log.exp().clamp(0.2, 1000.0);
    let (mut ax, mut ay) = points[0];
    let mut moved = 0.0f32;
    let mut radius = 0.0f32;
    let mut dabs = Vec::new();
    for &(tx, ty) in &points[1..] {
        let (mut x, mut y) = (ax, ay);
        if radius == 0.0 {
            radius = base;
        }
        let count = |x: f32, y: f32, radius: f32| (tx - x).hypot(ty - y) / radius * per_radius;
        // The basic and the timed density are zero, and adding them is exact.
        let mut todo = count(x, y, radius);
        while moved + todo >= 1.0 {
            let ddab = if moved > 0.0 { 1.0 - moved } else { 1.0 };
            moved = 0.0;
            let frac = ddab / todo;
            x += frac * (tx - x);
            y += frac * (ty - y);
            radius = base;
            dabs.push((x, y));
            todo = count(x, y, radius);
        }
        moved += todo;
        ax = tx;
        ay = ty;
    }
    dabs
}

#[test]
fn dabs_land_where_plain_floating_point_puts_them() {
    let points = [(3.0f32, 4.0f32), (23.5, 9.25), (40.0, -7.0), (41.0, -7.5), (90.0, 30.0)];
    let brush = make_brush(1.25, 3.0);
    let mut state = BrushState::default();
    let mut surf = DabList::new();
    for &(x, y) in &points {
        stroke(&brush, &mut state, &mut surf, x, y, 1.0, 0.0, 0.0, 0.01);
    }
    let want = plain_dabs(1.25, 3.0, &points);
    assert_eq!(surf.count(), want.len());
    for (dab, &(x, y)) in surf.dabs.iter().zip(want.iter()) {
        assert_eq!((f(dab.x), f(dab.y)), (x, y));
        assert_eq!(f(dab.radius), 1.25f32.exp());
        assert_eq!(f(dab.opaque), 1.0);
        assert_eq!(f(dab.hardness), 0.5);
    }
}

fn all_pixels(surf: &MemSurface) -> Vec<[u16; 4]> {
    let mut out = Vec::new();
    for ty in -1..2 {
        for tx in -1..3 {
            for y in 0..64 {
                for x in 0..64 {
                    out.push(surf.tile(tx, ty).map_or([0; 4], |t| t[y][x]));
                }
            }
        }
    }
    out
}

fn colored_brush(hue: f32) -> Brush {
    let mut b = make_brush(2.2, 3.0);
    b.set(BrushSetting::ColorH, constant(hue));
    b.set(BrushSetting::ColorS, constant(0.8));
    b.set(BrushSetting::ColorV, constant(0.9));
    b.set(BrushSetting::Paint, constant(0.0));
    b.set(BrushSetting::OffsetByRandom, constant(0.4));
    b
}

fn draw_line(brush: &Brush, surf: &mut MemSurface, y0: f32, y1: f32) {
    let mut state = BrushState::default();
    for i in 0..6 {
        let t = i as f32 / 5.0;
        let y = y0 + t * (y1 - y0);
        stroke(brush, &mut state, surf, 5.0 + 90.0 * t, y, 0.9, 0.0, 0.0, 0.03);
    }
}

#[test]
fn plain_strokes_keep_pixels_premultiplied() {
    let mut surf = MemSurface::new();
    draw_line(&colored_brush(0.1), &mut surf, 10.0, 50.0);
    draw_line(&colored_brush(0.6), &mut surf, 50.0, 10.0);
    let pixels = all_pixels(&surf);
    assert!(pixels.iter().any(|p| p[3] > 20000));
    for p in pixels {
        assert!(p[0] <= p[3] && p[1] <= p[3] && p[2] <= p[3] && p[3] <= 32768, "{p:?}");
    }
}

#[test]
fn locked_strokes_keep_alpha() {
    let mut surf = MemSurface::new();
    draw_line(&colored_brush(0.1), &mut surf, 10.0, 50.0);
    let before = all_pixels(&surf);
    let mut locked = colored_brush(0.6);
    locked.set(BrushSetting::LockAlpha, constant(1.0));
    draw_line(&locked, &mut surf, 50.0, 10.0);
    let after = all_pixels(&surf);
    assert_ne!(before, after);
    for (p, q) in before.iter().zip(&after) {
        assert_eq!(p[3], q[3]);
    }
}

#[test]
fn erasing_strokes_only_take_away() {
    let mut surf = MemSurface::new();
    draw_line(&colored_brush(0.1), &mut surf, 10.0, 50.0);
    let before = all_pixels(&surf);
    let mut eraser = colored_brush(0.6);
    eraser.set(BrushSetting::Eraser, constant(1.0));
    draw_line(&eraser, &mut surf, 50.0, 10.0);
    let after = all_pixels(&surf);
    assert_ne!(before, after);
    for (p, q) in before.iter().zip(&after) {
        for c in 0..4 {
            assert!(q[c] <= p[c]);
        }
    }
}

#[test]
fn strokes_that_paint_nothing_change_nothing() {
    let mut surf = MemSurface::new();
    draw_line(&colored_brush(0.1), &mut surf, 10.0, 50.0);
    let before = all_pixels(&surf);
    let mut clear = colored_brush(0.6);
    clear.set(BrushSetting::Opaque, constant(0.0));
    let mut state = BrushState::default();
    for i in 0..4 {
        let x = 10.0 + 20.0 * i as f32;
        assert!(!stroke(&clear, &mut state, &mut surf, x, 30.0, 0.9, 0.0, 0.0, 0.03));
    }
    assert_eq!(all_pixels(&surf), before);
}
