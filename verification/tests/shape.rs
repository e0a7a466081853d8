use hokusai::fix15::FIX15_ONE;
use hokusai::geometry::{opa_at, rr_at, Ellipse};
use hokusai::rand::{reset_get_color_rng, SampleRng};
use hokusai::sampling::get_color_via_sample;
use hokusai::single::Single;

fn s(v: f32) -> Single {
    Single { bits: v.to_bits() }
}

fn f(v: Single) -> f32 {
    f32::from_bits(v.bits)
}

fn circle() -> Ellipse {
    Ellipse { aspect: s(1.0), cs: s(1.0), sn: s(0.0) }
}

#[test]
fn opa_endpoints() {
    assert!((f(opa_at(s(0.0), s(0.5))) - 1.0).abs() < 1e-6);
    assert!(f(opa_at(s(1.0), s(0.5))).abs() < 1e-6);
    // At rr = hardness the two segments meet at the value of the hardness.
    assert!((f(opa_at(s(0.5), s(0.5))) - 0.5).abs() < 1e-6);
}

#[test]
fn hardness_1_is_solid_disk() {
    assert_eq!(f(opa_at(s(0.0), s(1.0))), 1.0);
    assert_eq!(f(opa_at(s(0.99), s(1.0))), 1.0);
    assert_eq!(f(opa_at(s(1.01), s(1.0))), 0.0);
}

#[test]
fn get_color_via_sample_averages_solid_fill() {
    let sample = |_px: i32, _py: i32| [FIX15_ONE as u16, 0, 0, FIX15_ONE as u16];
    let c = get_color_via_sample(s(2.0), s(2.0), s(1.0), sample);
    assert!((f(c.r) - 1.0).abs() < 1e-3, "red: {}", f(c.r));
    assert!(f(c.g).abs() < 1e-3);
    assert!(f(c.b).abs() < 1e-3);
    assert!((f(c.a) - 1.0).abs() < 1e-3);
}

#[test]
fn rr_increases_with_distance() {
    let near = rr_at(s(0.0), s(0.0), s(0.5), s(0.5), circle(), s(1.0));
    let far = rr_at(s(2.0), s(0.0), s(0.5), s(0.5), circle(), s(1.0));
    assert!(f(far) > f(near));
}

#[test]
fn sampling_numbers_follow_one_sequence() {
    let mut a = SampleRng::new();
    assert_eq!(a.c_rand(), 16807);
    assert_eq!(a.c_rand(), 282475249);
    reset_get_color_rng(&mut a);
    assert_eq!(a.c_rand(), 16807);
}
