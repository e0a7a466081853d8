use hokusai::rng::{get_array, BrushRng};

#[test]
fn next_unit_in_range() {
    let mut r = BrushRng::new(1000);
    for _ in 0..1000 {
        let v = f64::from_bits(r.next_unit_f64().bits);
        assert!((0.0..1.0).contains(&v), "out of range: {v}");
    }
}

#[test]
fn gauss_distribution() {
    let mut r = BrushRng::new(1000);
    let mut sum = 0.0_f64;
    let mut sum_sq = 0.0_f64;
    let n = 20_000;
    for _ in 0..n {
        let v = f32::from_bits(r.next_gauss().bits) as f64;
        sum += v;
        sum_sq += v * v;
    }
    let mean = sum / n as f64;
    let var = sum_sq / n as f64 - mean * mean;
    let std = var.sqrt();
    assert!(mean.abs() < 0.05, "mean = {mean}");
    assert!((std - 1.0).abs() < 0.05, "stddev = {std}, expected ~1.0");
}

/// The same recurrence on doubles: the first batch of the lagged sequence.
fn doubles(seed: u32, n: usize) -> Vec<f64> {
    let add = |x: f64, y: f64| {
        let z = x + y;
        z - (z as i64) as f64
    };
    let ulp = (1.0 / (1u64 << 30) as f64) / (1u64 << 22) as f64;
    let mut ss = 2.0 * ulp * ((seed & 0x3fff_ffff) as f64 + 2.0);
    let mut u = [0.0f64; 19];
    for v in u.iter_mut().take(10) {
        *v = ss;
        ss += ss;
        if ss >= 1.0 {
            ss -= 1.0 - 2.0 * ulp;
        }
    }
    u[1] += ulp;
    let mut s = seed & 0x3fff_ffff;
    let mut t = 6;
    while t > 0 {
        for j in (1..10).rev() {
            u[j + j] = u[j];
            u[j + j - 1] = 0.0;
        }
        for j in (10..19).rev() {
            u[j - 3] = add(u[j - 3], u[j]);
            u[j - 10] = add(u[j - 10], u[j]);
        }
        if s & 1 == 1 {
            for j in (1..=10).rev() {
                u[j] = u[j - 1];
            }
            u[0] = u[10];
            u[7] = add(u[7], u[10]);
        }
        if s != 0 {
            s >>= 1;
        } else {
            t -= 1;
        }
    }
    let mut state: Vec<f64> = (0..10).map(|k| if k < 3 { u[k + 7] } else { u[k - 3] }).collect();
    let batch = |state: &mut Vec<f64>| {
        let mut a = state.clone();
        for k in 10..29 {
            let v = add(a[k - 10], a[k - 7]);
            a.push(v);
        }
        let out = a[..19].to_vec();
        *state = a[19..].to_vec();
        out
    };
    for _ in 0..10 {
        batch(&mut state);
    }
    let mut out = Vec::new();
    while out.len() < n {
        let b = batch(&mut state);
        out.extend_from_slice(&b[..10]);
    }
    out.truncate(n);
    out
}

#[test]
fn fractions_agree_with_the_recurrence_on_doubles() {
    for seed in [0u32, 1, 1000, 0x3fff_ffff, 0xffff_ffff] {
        let mut r = BrushRng::new(seed);
        for (i, want) in doubles(seed, 57).iter().enumerate() {
            let got = f64::from_bits(r.next_unit_f64().bits);
            assert_eq!(got, *want, "seed {seed}, number {i}");
        }
    }
}

#[test]
fn singles_stay_below_one() {
    let mut r = BrushRng::new(7);
    for _ in 0..20000 {
        let v = f32::from_bits(r.next_unit().bits);
        assert!((0.0..1.0).contains(&v), "{v}");
    }
}

#[test]
fn batches_continue_one_sequence() {
    let start: [u64; 10] = [
        1,
        1 << 51,
        (1 << 52) - 1,
        12345678901234,
        (1 << 52) - 3,
        99,
        1 << 50,
        77777777777,
        3,
        (1 << 52) - 1,
    ];
    let (mut u, mut first, mut second) = (start, [0u64; 24], [0u64; 19]);
    get_array(&mut u, &mut first, 23);
    get_array(&mut u, &mut second, 17);
    let (mut w, mut both) = (start, [0u64; 40]);
    get_array(&mut w, &mut both, 40);
    assert_eq!(first[..10], start);
    assert_eq!(first[..23], both[..23]);
    assert_eq!(second[..17], both[23..]);
    assert_eq!((first[23], second[17], second[18]), (0, 0, 0));
    assert_eq!(u, w);
    for j in 10..40 {
        assert_eq!(both[j], (both[j - 10] + both[j - 7]) % (1 << 52));
    }
}
