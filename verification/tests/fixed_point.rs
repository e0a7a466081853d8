use hokusai::fix15::{add_sat, from_f32, mul, to_f32, FIX15_ONE};
use hokusai::single::Single;

#[test]
fn one_times_one_is_one() {
    assert_eq!(mul(FIX15_ONE, FIX15_ONE), FIX15_ONE);
}

#[test]
fn half_times_half_is_quarter() {
    let half = FIX15_ONE / 2;
    let q = mul(half, half);
    assert!((q as i32 - (FIX15_ONE as i32 / 4)).abs() <= 1);
}

#[test]
fn saturating_sum_stops_at_one() {
    assert_eq!(add_sat(FIX15_ONE, 1), FIX15_ONE);
    assert_eq!(add_sat(3, 4), 7);
}

#[test]
fn every_fixed_point_number_round_trips() {
    for v in 0..=32768u16 {
        assert_eq!(f32::from_bits(to_f32(v).bits), v as f32 / 32768.0);
        assert_eq!(from_f32(to_f32(v)), v);
    }
    assert_eq!(from_f32(Single { bits: (-1.0f32).to_bits() }), 0);
    assert_eq!(from_f32(Single { bits: (7.0f32).to_bits() }), 32768);
}

#[test]
fn storing_holds_to_the_range_in_order() {
    let store = |v: f32| from_f32(Single { bits: v.to_bits() });
    assert_eq!((store(-0.0), store(-3.0), store(f32::NEG_INFINITY)), (0, 0, 0));
    assert_eq!((store(1.0), store(7.5), store(f32::INFINITY)), (32768, 32768, 32768));
    assert_eq!(store(f32::NAN), 0);
    let mut last = 0;
    for i in -100..5000 {
        let v = store(i as f32 / 4321.0);
        assert!(last <= v && v <= 32768);
        last = v;
    }
    assert_eq!(last, 32768);
}
