use hokusai::double::Double;
use hokusai::single::Single;

fn s(v: f32) -> Single {
    Single { bits: v.to_bits() }
}

/// A stream of bit patterns that visits all magnitudes.
fn patterns(n: usize) -> Vec<u32> {
    let mut x: u64 = 0x9e37_79b9_7f4a_7c15;
    let mut out: Vec<u32> = vec![
        0, 0x8000_0000, 1, 0x8000_0001, 0x007f_ffff, 0x0080_0000, 0x3f80_0000, 0xbf80_0000,
        0x3f7f_ffff, 0x3f80_0001, 0x7f7f_ffff, 0xff7f_ffff, 0x7f80_0000, 0xff80_0000, 0x7fc0_0000,
        0x4b00_0000, 0x4b80_0000, 0x4f00_0000, 0x5f00_0000, 0x3400_0000, 0x3380_0000,
    ];
    for _ in 0..n {
        x ^= x << 13;
        x ^= x >> 7;
        x ^= x << 17;
        let b = (x >> 16) as u32;
        out.push(b);
        // Magnitudes near one, where sums cancel and round.
        out.push((b & 0x807f_ffff) | (((b >> 23) % 60 + 100) << 23));
    }
    out
}

fn agree(a: Single, b: f32) {
    if b.is_nan() {
        assert!(f32::from_bits(a.bits).is_nan());
    } else {
        assert_eq!(a.bits, b.to_bits());
    }
}

#[test]
fn sums_match_the_processor() {
    let p = patterns(400);
    for &a in &p {
        for &b in p.iter().step_by(3) {
            let (x, y) = (f32::from_bits(a), f32::from_bits(b));
            agree(s(x).plus(s(y)), x + y);
            agree(s(x).minus(s(y)), x - y);
        }
    }
}

#[test]
fn products_and_quotients_match_the_processor() {
    let p = patterns(400);
    for &a in &p {
        for &b in p.iter().step_by(3) {
            let (x, y) = (f32::from_bits(a), f32::from_bits(b));
            agree(s(x).times(s(y)), x * y);
            agree(s(x).over(s(y)), x / y);
            agree(s(x).rem(s(y)), x % y);
        }
    }
}

#[test]
fn comparisons_match_the_processor() {
    let p = patterns(200);
    for &a in &p {
        for &b in &p {
            let (x, y) = (f32::from_bits(a), f32::from_bits(b));
            assert_eq!(s(x).lt(s(y)), x < y);
            assert_eq!(s(x).le(s(y)), x <= y);
            assert_eq!(s(x).same(s(y)), x == y);
        }
    }
}

#[test]
fn conversions_match_the_processor() {
    for &a in &patterns(4000) {
        let x = f32::from_bits(a);
        assert_eq!(s(x).to_u32(), x as u32);
        assert_eq!(s(x).to_u16(), x as u16);
        assert_eq!(s(x).to_i32(), x as i32);
        assert_eq!(s(x).floor_i32(), x.floor() as i32);
        agree(Single::from_u32(a), a as f32);
        agree(Single::from_i32(a as i32), a as i32 as f32);
        agree(s(x).abs(), x.abs());
        agree(s(x).clamp(s(0.0), s(1.0)), x.clamp(0.0, 1.0));
    }
}

#[test]
fn roundings_to_integers_match_the_processor() {
    for &a in &patterns(4000) {
        let x = f32::from_bits(a);
        assert_eq!(s(x).to_u8(), x as u8);
        assert_eq!(s(x).is_finite(), x.is_finite());
        assert_eq!(s(x).is_nan(), x.is_nan());
        agree(s(x).floor(), x.floor());
        agree(s(x).round(), x.round());
        let n = (a as u64) * 0x1_0000_0001;
        agree(Single::from_u64(n), n as f32);
    }
    for v in [0.5f32, 1.5, 2.5, -0.5, -2.5, 8388607.5, 8388608.0, 0.49999997] {
        agree(s(v).round(), v.round());
        agree(s(v).floor(), v.floor());
    }
}

fn wide(v: f64) -> Double {
    Double { bits: v.to_bits() }
}

fn wide_agree(a: Double, b: f64) {
    if b.is_nan() {
        assert!(f64::from_bits(a.bits).is_nan());
    } else {
        assert_eq!(a.bits, b.to_bits());
    }
}

fn wide_patterns() -> Vec<u64> {
    let mut out: Vec<u64> = vec![
        0,
        1 << 63,
        1,
        0x000f_ffff_ffff_ffff,
        0x0010_0000_0000_0000,
        0x7fef_ffff_ffff_ffff,
        0x7ff0_0000_0000_0000,
        0xfff0_0000_0000_0000,
        0x7ff8_0000_0000_0000,
    ];
    for (i, &a) in patterns(120).iter().enumerate() {
        let b = (a as u64).wrapping_mul(0x9e37_79b9_7f4a_7c15) ^ (i as u64);
        out.push(b);
        // Magnitudes near one.
        out.push((b & 0x800f_ffff_ffff_ffff) | ((b >> 52) % 80 + 980) << 52);
    }
    out
}

#[test]
fn doubles_match_the_processor() {
    let p = wide_patterns();
    for &a in &p {
        let x = f64::from_bits(a);
        agree(wide(x).narrow(), x as f32);
        wide_agree(Double::from_single(s(x as f32)), x as f32 as f64);
        for &b in &p {
            let y = f64::from_bits(b);
            wide_agree(wide(x).plus(wide(y)), x + y);
            wide_agree(wide(x).minus(wide(y)), x - y);
            wide_agree(wide(x).times(wide(y)), x * y);
            wide_agree(wide(x).over(wide(y)), x / y);
            assert_eq!(wide(x).lt(wide(y)), x < y);
            assert_eq!(wide(x).le(wide(y)), x <= y);
        }
    }
}
