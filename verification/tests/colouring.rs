use hokusai::blend::{set_rgb16_lum_from_rgb16, Source};

fn luma(c: (u16, u16, u16)) -> f32 {
    let one = 32768.0f32;
    (c.0 as f32 * (0.2126 * one) + c.1 as f32 * (0.7152 * one) + c.2 as f32 * (0.0722 * one)) / one
}

fn coloured(top: (u32, u32, u32), bottom: (u16, u16, u16)) -> (u16, u16, u16) {
    let s = Source { r: top.0, g: top.1, b: top.2 };
    set_rgb16_lum_from_rgb16(s, bottom.0, bottom.1, bottom.2)
}

#[test]
fn white_stays_in_range_under_any_grey() {
    assert_eq!(coloured((32759, 32759, 32759), (32768, 32768, 32768)), (32768, 32768, 32768));
    for v in 0..=32768u32 {
        let c = coloured((v, v, v), (32768, 32768, 32768));
        assert!(c.0 <= 32768 && c.0 == c.1 && c.1 == c.2 && c.0 >= 32766, "{v}: {c:?}");
        let k = coloured((v, v, v), (0, 0, 0));
        assert!(k.0 <= 2 && k.0 == k.1 && k.1 == k.2, "{v}: {k:?}");
    }
}

#[test]
fn luminance_is_kept_and_channels_stay_in_order() {
    let levels = [0u32, 1, 5000, 9999, 16384, 23799, 30000, 32759, 32767, 32768];
    for &r in &levels {
        for &g in &levels {
            for &b in &levels {
                for &x in &levels {
                    for &y in &[0u16, 7000, 20000, 32768] {
                        let bottom = (x as u16, y, 32768 - y);
                        let c = coloured((r, g, b), bottom);
                        assert!(c.0 <= 32768 && c.1 <= 32768 && c.2 <= 32768, "{c:?}");
                        assert!((luma(c) - luma(bottom)).abs() <= 4.0, "{r} {g} {b} {bottom:?}");
                        assert!((r > g || c.0 <= c.1) && (g > r || c.1 <= c.0));
                        assert!((r > b || c.0 <= c.2) && (b > r || c.2 <= c.0));
                        assert!((g > b || c.1 <= c.2) && (b > g || c.2 <= c.1));
                    }
                }
            }
        }
    }
}
