use hokusai::angles::{
    attack_angle, degrees_c, direction_angle, direction_input, mod_arith_c, radians_c,
    smallest_angular_diff, speed_input, turn_of, wrap,
};
use hokusai::double::Double;
use hokusai::elementary::{Elementary, Narrow, Wide};
use hokusai::evaluator::SettingValues;
use hokusai::offsets::directional_offsets;
use hokusai::setting::BrushSetting;
use hokusai::single::Single;

fn s(v: f32) -> Single {
    Single { bits: v.to_bits() }
}

fn f(v: Single) -> f32 {
    f32::from_bits(v.bits)
}

fn d(v: Double) -> f64 {
    f64::from_bits(v.bits)
}

fn math() -> Elementary<impl Fn(Narrow) -> Single, impl Fn(Wide) -> Double> {
    Elementary {
        narrow: |c: Narrow| {
            s(match c {
                Narrow::Exp(x) => f(x).exp(),
                Narrow::Sqrt(x) => f(x).sqrt(),
                Narrow::Cos(x) => f(x).cos(),
                Narrow::Sin(x) => f(x).sin(),
                Narrow::Hypot(x, y) => f(x).hypot(f(y)),
                Narrow::Atan2(y, x) => f(y).atan2(f(x)),
                Narrow::Pow(x, p) => f(x).powf(f(p)),
            })
        },
        wide: |c: Wide| Double {
            bits: match c {
                Wide::Ln(x) => d(x).ln(),
                Wide::Cos(x) => d(x).cos(),
                Wide::Sin(x) => d(x).sin(),
            }
            .to_bits(),
        },
    }
}

#[test]
fn degrees_and_radians() {
    let pi = std::f32::consts::PI;
    assert_eq!(d(degrees_c(s(pi))), pi as f64 / (2.0 * std::f64::consts::PI) * 360.0);
    assert_eq!(f(radians_c(s(180.0))), pi);
    assert_eq!(f(radians_c(s(-90.0))), -std::f32::consts::FRAC_PI_2);
}

#[test]
fn angles_fold() {
    assert_eq!(f(mod_arith_c(s(-30.0), s(360.0))), 330.0);
    assert_eq!(f(mod_arith_c(s(725.0), s(360.0))), 5.0);
    assert_eq!(f(wrap(s(190.0))), -170.0);
    assert_eq!(f(wrap(s(180.0))), -180.0);
    assert_eq!(f(wrap(s(-170.0))), -170.0);
}

#[test]
fn the_short_way_round() {
    assert_eq!(f(smallest_angular_diff(s(359.0), s(1.0))), 2.0);
    assert_eq!(f(smallest_angular_diff(s(1.0), s(359.0))), -2.0);
    assert_eq!(f(smallest_angular_diff(s(10.0), s(100.0))), 90.0);
    assert_eq!(f(smallest_angular_diff(s(0.0), s(0.0))), 0.0);
}

#[test]
fn directions_of_a_stroke() {
    let m = math();
    assert_eq!(f(attack_angle(s(0.0), s(0.0), s(0.0), &m)), 90.0);
    assert_eq!(f(direction_input(s(1.0), s(0.0), &m)), 0.0);
    assert_eq!(f(direction_input(s(0.0), s(1.0), &m)), 90.0);
    assert_eq!(f(direction_input(s(0.0), s(-1.0), &m)), 90.0);
    assert_eq!(f(direction_angle(s(0.0), s(1.0), &m)), 90.0);
    assert_eq!(f(direction_angle(s(0.0), s(-1.0), &m)), 270.0);
    let quarter = turn_of(s(90.0), &m);
    assert!(f(quarter.cs).abs() < 1e-6);
    assert_eq!(f(quarter.sn), 1.0);
}

#[test]
fn a_speed_of_45_is_the_middle() {
    let m = math();
    for gamma in [0.0_f32, 2.0, 4.0] {
        assert!((f(speed_input(s(45.0), s(gamma), &m)) - 0.5).abs() < 1e-5);
    }
    let gamma = 4.0_f32.exp();
    let scale = 0.015_f32 * (45.0 + gamma);
    let offset = 0.5_f32 - scale * ((45.0_f32 + gamma) as f64).ln() as f32;
    let at_ten = (((gamma + 10.0) as f64).ln() * scale as f64 + offset as f64) as f32;
    assert_eq!(f(speed_input(s(10.0), s(4.0), &m)), at_ten);
}

fn offsets(set: &[(BrushSetting, f32)], flip: f32) -> (f32, f32) {
    let mut sv = SettingValues::new();
    for &(setting, v) in set {
        sv.values[setting.index()] = s(v);
    }
    let r = directional_offsets(&sv, s(2.0), s(flip), s(1.0), s(0.0), s(0.0), &math());
    (f(r.0), f(r.1))
}

#[test]
fn offsets_move_dabs() {
    assert_eq!(offsets(&[], 1.0), (0.0, 0.0));
    assert_eq!(
        offsets(&[(BrushSetting::OffsetX, 1.0), (BrushSetting::OffsetY, -3.0)], 1.0),
        (2.0, -6.0)
    );
    // Beside a stroke to the right is up.
    let (x, y) = offsets(&[(BrushSetting::OffsetAngle, 1.0)], 1.0);
    assert!(x.abs() < 1e-5 && (y + 2.0).abs() < 1e-5, "({x}, {y})");
    // Mirrored offsets change sides with the flip.
    let (_, up) = offsets(&[(BrushSetting::OffsetAngle2, 1.0)], 1.0);
    let (_, down) = offsets(&[(BrushSetting::OffsetAngle2, 1.0)], -1.0);
    assert!((up + down).abs() < 1e-5 && up < -1.9, "{up} {down}");
}

#[test]
fn offsets_are_bounded() {
    assert_eq!(offsets(&[(BrushSetting::OffsetX, 1e30)], 1.0).0, 3240.0);
    assert_eq!(offsets(&[(BrushSetting::OffsetY, -1e30)], 1.0).1, -3240.0);
    let endless = [(BrushSetting::OffsetX, 1.0), (BrushSetting::OffsetMultiplier, 1000.0)];
    assert_eq!(offsets(&endless, 1.0), (0.0, 0.0));
}

#[test]
fn directions_stay_in_their_ranges() {
    // From the pen at 0 to a target at 180 is a half turn, on the positive side.
    assert_eq!(f(attack_angle(s(0.0), s(0.0), s(1.0), &math())), 180.0);
    // Leftward just below the axis: the axis folds back to zero.
    assert_eq!(f(direction_input(s(-1.0), s(-0.0), &math())), 0.0);
    for i in 0..720 {
        let a = (i as f32 / 720.0 - 0.5) * 6.2831855;
        let (dx, dy) = (s(a.cos()), s(a.sin()));
        let axis = f(direction_input(dx, dy, &math()));
        assert!((0.0..180.0).contains(&axis), "{axis}");
        let heading = f(direction_angle(dx, dy, &math()));
        assert!((0.0..360.0).contains(&heading), "{heading}");
        for pen in [-180.0, -90.0, 0.0, 45.0, 90.0, 180.0] {
            let attack = f(attack_angle(s(pen), dx, dy, &math()));
            assert!(attack > -180.0 && attack <= 180.0, "{attack}");
        }
    }
}
